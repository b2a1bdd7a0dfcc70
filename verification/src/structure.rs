//! Structural recovery: the graph of lifted blocks is folded into nested
//! `if` / `else` and `while` by its dominator sets and loop headers.

use vstd::prelude::*;
use crate::dominators::{is_dominator_sets, is_loop_header, is_square};
use crate::graph::{EdgeKind, Graph, GraphModel};
use crate::untyped_ir::{clone_irs, irs_view, Ir, UnTypedIR};

verus! {

/// Where a walk over the graph ends before it runs out of blocks.
#[derive(Debug, Clone, Copy, PartialEq, Eq, Structural)]
pub enum Stop {
    /// Nowhere.
    Never,
    /// On reaching this block.
    At(usize),
    /// On reaching a block that this block does not dominate.
    Outside(usize),
}

/// Why a graph cannot be folded, with the block at which it shows.
#[derive(Debug, Clone, Copy, PartialEq, Eq, Structural)]
pub enum StructureError {
    /// The block branches but has not exactly one successor reached by a
    /// conditional jump.
    MissingTaken(usize),
    /// The block branches but has not exactly one successor reached by
    /// falling through.
    MissingNotTaken(usize),
    /// The block branches but ends in no expression to branch on.
    MissingCondition(usize),
    /// The two arms of a conditional leave it at different blocks.
    Diverge(usize, usize),
    /// The walk went deeper than the graph has blocks: some cycle has no
    /// header.
    TooDeep(usize),
}

/// What a walk gives back: the block at which it stopped, if it did, and
/// the statements of what it passed.
pub struct Walk {
    pub next: Option<usize>,
    pub stmts: Seq<Ir>,
}

/// Whether a walk with `stop` ends on reaching block `i`.
pub open spec fn stops(d: Seq<Vec<usize>>, stop: Stop, i: usize) -> bool {
    match stop {
        Stop::Never => false,
        Stop::At(h) => i == h,
        Stop::Outside(t) => d[i as int]@[t as int] == 0,
    }
}

/// Whether `stop` names a block of a graph of `n` blocks, if it names one.
pub open spec fn stop_in_range(stop: Stop, n: int) -> bool {
    match stop {
        Stop::Never => true,
        Stop::At(h) => h < n,
        Stop::Outside(t) => t < n,
    }
}

/// Those of the first `k` successors of `n` that are reached by a
/// conditional jump (`taken`) or are not (`!taken`).
pub open spec fn branches<C>(g: GraphModel<C>, n: usize, taken: bool, k: int) -> Seq<usize>
    decreases k,
{
    if k <= 0 {
        Seq::empty()
    } else {
        let rest = branches(g, n, taken, k - 1);
        let s = g.blocks[n as int].succs[k - 1];
        if (g.kind(n, s) == Some(EdgeKind::IfGoto)) == taken {
            rest.push(s)
        } else {
            rest
        }
    }
}

/// The one successor of `n` that is reached by a conditional jump
/// (`taken`), or the one that is not (`!taken`). None where there is no
/// such successor or more than one.
pub open spec fn branch<C>(g: GraphModel<C>, n: usize, taken: bool) -> Option<usize> {
    let b = branches(g, n, taken, g.blocks[n as int].succs.len() as int);
    if b.len() == 1 {
        Some(b[0])
    } else {
        None
    }
}

/// Whether exactly one block has an edge to `n`.
pub open spec fn has_single_pred<C>(g: GraphModel<C>, n: int) -> bool {
    exists|p: int| #[trigger] g.is_pred(p, n) && forall|q: int| #[trigger] g.is_pred(q, n) ==> q == p
}

/// The statements `out` with their last one, the condition, replaced by a
/// loop over `body`, followed by `cont`.
pub open spec fn with_while(out: Seq<Ir>, body: Seq<Ir>, cont: Seq<Ir>) -> Seq<Ir> {
    out.drop_last().push(Ir::While(Box::new(out.last()), body, cont))
}

/// The statements `out` with their last one, the condition, replaced by a
/// conditional, followed by `cont`.
pub open spec fn with_if(out: Seq<Ir>, then: Seq<Ir>, other: Seq<Ir>, cont: Seq<Ir>) -> Seq<Ir> {
    out.drop_last().push(Ir::If(Box::new(out.last()), then, other, cont))
}

/// The walk from block `n` until `stop`, at most `fuel` blocks deep.
///
/// A block at which the walk stops gives no statements and is handed back.
/// A block without successors gives its statements. A loop header gives a
/// loop: its last statement is the condition, the walk from its fallthrough
/// successor until the header is the body, and the walk from its taken
/// successor follows the loop. Any other block with two successors gives a
/// conditional: the walk from the taken successor, as far as that block
/// dominates, is the first arm; where the fallthrough successor has no
/// other predecessor, the walk from it, as far as it dominates, is the
/// second arm, and the walk goes on where that arm stopped; else there is
/// no second arm and the walk goes on at the fallthrough successor. Two
/// arms that stop at different blocks are a fault. Any other block gives
/// its statements and then the walks from its successors.
pub open spec fn structured(
    g: GraphModel<UnTypedIR>,
    d: Seq<Vec<usize>>,
    lhs: Seq<usize>,
    n: usize,
    stop: Stop,
    fuel: nat,
) -> Result<Walk, StructureError>
    decreases fuel, 0nat, 0nat,
{
    let out = irs_view(g.blocks[n as int].commands);
    let succs = g.blocks[n as int].succs;
    if stops(d, stop, n) {
        Ok(Walk { next: Some(n), stmts: Seq::empty() })
    } else if fuel == 0 {
        Err(StructureError::TooDeep(n))
    } else if succs.len() == 0 {
        Ok(Walk { next: None, stmts: out })
    } else if lhs[n as int] == 1 || succs.len() == 2 {
        if branch(g, n, true) is None {
            Err(StructureError::MissingTaken(n))
        } else if branch(g, n, false) is None {
            Err(StructureError::MissingNotTaken(n))
        } else if out.len() == 0 {
            Err(StructureError::MissingCondition(n))
        } else {
            let t = branch(g, n, true)->Some_0;
            let f = branch(g, n, false)->Some_0;
            if lhs[n as int] == 1 {
                match structured(g, d, lhs, f, Stop::At(n), (fuel - 1) as nat) {
                    Err(e) => Err(e),
                    Ok(body) => match structured(g, d, lhs, t, stop, (fuel - 1) as nat) {
                        Err(e) => Err(e),
                        Ok(cont) => Ok(
                            Walk { next: None, stmts: with_while(out, body.stmts, cont.stmts) },
                        ),
                    },
                }
            } else {
                match structured(g, d, lhs, t, Stop::Outside(t), (fuel - 1) as nat) {
                    Err(e) => Err(e),
                    Ok(then) => if has_single_pred(g, f as int) {
                        match structured(g, d, lhs, f, Stop::Outside(f), (fuel - 1) as nat) {
                            Err(e) => Err(e),
                            Ok(other) => if then.next is Some && other.next is Some && then.next
                                != other.next {
                                Err(
                                    StructureError::Diverge(then.next->Some_0, other.next->Some_0),
                                )
                            } else {
                                match other.next {
                                    None => Ok(
                                        Walk {
                                            next: None,
                                            stmts: with_if(out, then.stmts, other.stmts, Seq::empty()),
                                        },
                                    ),
                                    Some(c) => match structured(
                                        g,
                                        d,
                                        lhs,
                                        c,
                                        stop,
                                        (fuel - 1) as nat,
                                    ) {
                                        Err(e) => Err(e),
                                        Ok(cont) => Ok(
                                            Walk {
                                                next: cont.next,
                                                stmts: with_if(
                                                    out,
                                                    then.stmts,
                                                    other.stmts,
                                                    cont.stmts,
                                                ),
                                            },
                                        ),
                                    },
                                }
                            },
                        }
                    } else {
                        match structured(g, d, lhs, f, stop, (fuel - 1) as nat) {
                            Err(e) => Err(e),
                            Ok(cont) => Ok(
                                Walk {
                                    next: cont.next,
                                    stmts: with_if(out, then.stmts, Seq::empty(), cont.stmts),
                                },
                            ),
                        }
                    },
                }
            }
        }
    } else {
        match chained(g, d, lhs, succs, stop, (fuel - 1) as nat) {
            Err(e) => Err(e),
            Ok(w) => Ok(Walk { next: w.next, stmts: out + w.stmts }),
        }
    }
}

/// The walks from each of `succs` in turn, one after another: the
/// statements of all, and where the last one stopped.
pub open spec fn chained(
    g: GraphModel<UnTypedIR>,
    d: Seq<Vec<usize>>,
    lhs: Seq<usize>,
    succs: Seq<usize>,
    stop: Stop,
    fuel: nat,
) -> Result<Walk, StructureError>
    decreases fuel, 1nat, succs.len(),
{
    if succs.len() == 0 {
        Ok(Walk { next: None, stmts: Seq::empty() })
    } else {
        match chained(g, d, lhs, succs.drop_last(), stop, fuel) {
            Err(e) => Err(e),
            Ok(before) => match structured(g, d, lhs, succs.last(), stop, fuel) {
                Err(e) => Err(e),
                Ok(w) => Ok(Walk { next: w.next, stmts: before.stmts + w.stmts }),
            },
        }
    }
}

/// Appends `tail` to `head`.
fn join(head: Vec<UnTypedIR>, tail: Vec<UnTypedIR>) -> (r: Vec<UnTypedIR>)
    ensures
        irs_view(r@) == irs_view(head@) + irs_view(tail@),
{
    let mut r = head;
    let mut rest = tail;
    r.append(&mut rest);
    assert(irs_view(r@) =~= irs_view(head@) + irs_view(tail@));
    r
}

/// Takes the last statement of `out`, the condition.
fn pop_condition(out: &mut Vec<UnTypedIR>) -> (cond: UnTypedIR)
    requires
        old(out)@.len() > 0,
    ensures
        irs_view(final(out)@) == irs_view(old(out)@).drop_last(),
        cond@ == irs_view(old(out)@).last(),
{
    let cond = out.pop().unwrap();
    assert(irs_view(out@) =~= irs_view(old(out)@).drop_last());
    cond
}

/// Puts `node` at the end of `out`.
fn push_node(out: &mut Vec<UnTypedIR>, node: UnTypedIR)
    ensures
        irs_view(final(out)@) == irs_view(old(out)@).push(node@),
{
    out.push(node);
    assert(irs_view(out@) =~= irs_view(old(out)@).push(node@));
}

impl Graph<UnTypedIR> {
    /// The one successor of `n` that is reached by a conditional jump
    /// (`taken`), or the one that is not (`!taken`).
    pub fn find_branch(&self, n: usize, taken: bool) -> (r: Option<usize>)
        requires
            self.wf(),
            n < self@.blocks.len(),
        ensures
            r == branch(self@, n, taken),
            r is Some ==> r->Some_0 < self@.blocks.len(),
    {
        let mut found: Vec<usize> = Vec::new();
        let mut j: usize = 0;
        while j < self.nodes[n].neighbors.len()
            invariant
                self.wf(),
                n < self@.blocks.len(),
                j <= self@.blocks[n as int].succs.len(),
                found@ == branches(self@, n, taken, j as int),
                forall|k: int| 0 <= k < found@.len() ==> #[trigger] found@[k] < self@.blocks.len(),
            decreases self@.blocks[n as int].succs.len() - j,
        {
            let s = self.nodes[n].neighbors[j];
            assert(s == self@.blocks[n as int].succs[j as int]);
            let is_taken = match self.edge_kind(n, s) {
                Some(EdgeKind::IfGoto) => true,
                _ => false,
            };
            if is_taken == taken {
                found.push(s);
            }
            j = j + 1;
        }
        if found.len() == 1 {
            Some(found[0])
        } else {
            None
        }
    }

    /// The successor of `n` that is reached when its condition holds.
    pub fn taken_edge(&self, n: usize) -> (r: usize)
        requires
            self.wf(),
            n < self@.blocks.len(),
            branch(self@, n, true) is Some,
        ensures
            Some(r) == branch(self@, n, true),
    {
        match self.find_branch(n, true) {
            Some(t) => t,
            None => n,
        }
    }

    /// The successor of `n` that is reached when its condition fails.
    pub fn not_taken_edge(&self, n: usize) -> (r: usize)
        requires
            self.wf(),
            n < self@.blocks.len(),
            branch(self@, n, false) is Some,
        ensures
            Some(r) == branch(self@, n, false),
    {
        match self.find_branch(n, false) {
            Some(t) => t,
            None => n,
        }
    }

    /// Whether a walk with `stop` ends on reaching block `i`.
    pub fn should_stop(doms: &Vec<Vec<usize>>, stop: Stop, i: usize) -> (r: bool)
        requires
            i < doms@.len(),
            is_square(doms@, doms@.len() as int),
            stop_in_range(stop, doms@.len() as int),
        ensures
            r == stops(doms@, stop, i),
    {
        match stop {
            Stop::Never => false,
            Stop::At(h) => i == h,
            Stop::Outside(t) => doms[i][t] == 0,
        }
    }

    /// Whether exactly one block has an edge to `n`.
    pub fn single_pred(&self, n: usize) -> (r: bool)
        ensures
            r == has_single_pred(self@, n as int),
    {
        let preds = self.pred(n);
        let total = self.nodes.len();
        proof {
            if preds@.len() == 1 {
                assert(self@.is_pred(preds@[0] as int, n as int));
                assert forall|q: int| #[trigger] self@.is_pred(q, n as int) implies q == preds@[0] by {
                    assert(preds@.contains(q as usize));
                }
            } else if preds@.len() >= 2 {
                assert(self@.is_pred(preds@[0] as int, n as int));
                assert(self@.is_pred(preds@[1] as int, n as int));
                assert(preds@[0] < preds@[1]);
            } else {
                if has_single_pred(self@, n as int) {
                    let p = choose|p: int| #[trigger] self@.is_pred(p, n as int);
                    assert(preds@.contains(p as usize));
                }
            }
        }
        preds.len() == 1
    }

    /// Folds the blocks reached from `n` until `stop`, at most `fuel` blocks
    /// deep: the statements, and the block at which the walk stopped.
    pub fn reconstruct_from_node_until(
        &self,
        n: usize,
        doms: &Vec<Vec<usize>>,
        lhs: &Vec<usize>,
        stop: Stop,
        fuel: usize,
    ) -> (r: Result<(Option<usize>, Vec<UnTypedIR>), StructureError>)
        requires
            self.wf(),
            n < self@.blocks.len(),
            is_square(doms@, self@.blocks.len() as int),
            lhs@.len() == self@.blocks.len(),
            stop_in_range(stop, self@.blocks.len() as int),
        ensures
            match structured(self@, doms@, lhs@, n, stop, fuel as nat) {
                Ok(w) => r is Ok && r->Ok_0.0 == w.next && irs_view(r->Ok_0.1@) == w.stmts,
                Err(e) => r == Err::<(Option<usize>, Vec<UnTypedIR>), StructureError>(e),
            },
            r is Ok && r->Ok_0.0 is Some ==> r->Ok_0.0->Some_0 < self@.blocks.len(),
        decreases fuel, 0nat, 0nat,
    {
        if Self::should_stop(doms, stop, n) {
            let none: Vec<UnTypedIR> = Vec::new();
            assert(irs_view(none@) =~= Seq::empty());
            return Ok((Some(n), none));
        }
        if fuel == 0 {
            return Err(StructureError::TooDeep(n));
        }
        let mut result = clone_irs(&self.nodes[n].commands);
        let count = self.nodes[n].neighbors.len();
        if count == 0 {
            return Ok((None, result));
        }
        if lhs[n] == 1 || count == 2 {
            let t = match self.find_branch(n, true) {
                Some(t) => t,
                None => {
                    return Err(StructureError::MissingTaken(n));
                },
            };
            let nt = match self.find_branch(n, false) {
                Some(f) => f,
                None => {
                    return Err(StructureError::MissingNotTaken(n));
                },
            };
            if result.len() == 0 {
                return Err(StructureError::MissingCondition(n));
            }
            let last_expr = pop_condition(&mut result);
            if lhs[n] == 1 {
                let loop_body = match self.reconstruct_from_node_until(
                    nt,
                    doms,
                    lhs,
                    Stop::At(n),
                    fuel - 1,
                ) {
                    Ok(w) => w.1,
                    Err(e) => {
                        return Err(e);
                    },
                };
                let continuation = match self.reconstruct_from_node_until(t, doms, lhs, stop, fuel - 1) {
                    Ok(w) => w.1,
                    Err(e) => {
                        return Err(e);
                    },
                };
                push_node(&mut result, UnTypedIR::While(Box::new(last_expr), loop_body, continuation));
                return Ok((None, result));
            }
            let (n1, if_body) = match self.reconstruct_from_node_until(
                t,
                doms,
                lhs,
                Stop::Outside(t),
                fuel - 1,
            ) {
                Ok(w) => w,
                Err(e) => {
                    return Err(e);
                },
            };
            let mut else_body: Vec<UnTypedIR> = Vec::new();
            let mut contn: Option<usize> = Some(nt);
            assert(irs_view(else_body@) =~= Seq::empty());
            if self.single_pred(nt) {
                let (n2, eb) = match self.reconstruct_from_node_until(
                    nt,
                    doms,
                    lhs,
                    Stop::Outside(nt),
                    fuel - 1,
                ) {
                    Ok(w) => w,
                    Err(e) => {
                        return Err(e);
                    },
                };
                else_body = eb;
                match (n1, n2) {
                    (Some(contn1), Some(contn2)) => {
                        if contn1 != contn2 {
                            return Err(StructureError::Diverge(contn1, contn2));
                        }
                    },
                    _ => {},
                }
                contn = n2;
            }
            let (ret, rs) = match contn {
                Some(c) => match self.reconstruct_from_node_until(c, doms, lhs, stop, fuel - 1) {
                    Ok(w) => w,
                    Err(e) => {
                        return Err(e);
                    },
                },
                None => {
                    let none: Vec<UnTypedIR> = Vec::new();
                    assert(irs_view(none@) =~= Seq::empty());
                    (None, none)
                },
            };
            push_node(&mut result, UnTypedIR::If(Box::new(last_expr), if_body, else_body, rs));
            return Ok((ret, result));
        }
        let mut ret: Option<usize> = None;
        let mut tail: Vec<UnTypedIR> = Vec::new();
        let mut j: usize = 0;
        assert(irs_view(tail@) =~= Seq::empty());
        assert(self@.blocks[n as int].succs.take(0) =~= Seq::empty());
        while j < count
            invariant
                self.wf(),
                n < self@.blocks.len(),
                is_square(doms@, self@.blocks.len() as int),
                lhs@.len() == self@.blocks.len(),
                stop_in_range(stop, self@.blocks.len() as int),
                fuel > 0,
                j <= count,
                count == self@.blocks[n as int].succs.len(),
                count != 0 && count != 2,
                lhs@[n as int] != 1,
                !stops(doms@, stop, n),
                chained(
                    self@,
                    doms@,
                    lhs@,
                    self@.blocks[n as int].succs.take(j as int),
                    stop,
                    (fuel - 1) as nat,
                ) == Ok::<Walk, StructureError>(Walk { next: ret, stmts: irs_view(tail@) }),
                ret is Some ==> ret->Some_0 < self@.blocks.len(),
            decreases count - j,
        {
            let s = self.nodes[n].neighbors[j];
            let ghost succs = self@.blocks[n as int].succs;
            proof {
                assert(s == succs[j as int]);
                assert(succs.take(j as int + 1).drop_last() =~= succs.take(j as int));
                assert(succs.take(j as int + 1).last() == s);
            }
            match self.reconstruct_from_node_until(s, doms, lhs, stop, fuel - 1) {
                Ok(w) => {
                    ret = w.0;
                    tail = join(tail, w.1);
                },
                Err(e) => {
                    proof {
                        assert(chained(
                            self@,
                            doms@,
                            lhs@,
                            succs.take(j as int + 1),
                            stop,
                            (fuel - 1) as nat,
                        ) == Err::<Walk, StructureError>(e));
                        lemma_chain_fault_stays(
                            self@,
                            doms@,
                            lhs@,
                            succs,
                            stop,
                            (fuel - 1) as nat,
                            j as int + 1,
                        );
                    }
                    return Err(e);
                },
            }
            j = j + 1;
        }
        assert(self@.blocks[n as int].succs.take(j as int) =~= self@.blocks[n as int].succs);
        Ok((ret, join(result, tail)))
    }
}

/// A fault in the walks from the first `k` successors is the fault of the
/// walks from all of them.
pub proof fn lemma_chain_fault_stays(
    g: GraphModel<UnTypedIR>,
    d: Seq<Vec<usize>>,
    lhs: Seq<usize>,
    succs: Seq<usize>,
    stop: Stop,
    fuel: nat,
    k: int,
)
    requires
        0 <= k <= succs.len(),
        chained(g, d, lhs, succs.take(k), stop, fuel) is Err,
    ensures
        chained(g, d, lhs, succs, stop, fuel) == chained(g, d, lhs, succs.take(k), stop, fuel),
    decreases succs.len(),
{
    if k == succs.len() {
        assert(succs.take(k) =~= succs);
    } else {
        assert(succs.drop_last().take(k) =~= succs.take(k));
        lemma_chain_fault_stays(g, d, lhs, succs.drop_last(), stop, fuel, k);
    }
}

/// Whether `lhs` marks the loop headers of `g` under the sets `d`.
pub open spec fn is_header_flags<C>(g: GraphModel<C>, d: Seq<Vec<usize>>, lhs: Seq<usize>) -> bool {
    &&& lhs.len() == g.blocks.len()
    &&& forall|h: int|
        0 <= h < lhs.len() ==> #[trigger] lhs[h] == if is_loop_header(g, d, h) {
            1usize
        } else {
            0usize
        }
}

/// Whether `r` is what folding `g` from its entry gives: the statements of
/// the walk from block 0 that stops nowhere and goes as deep as the graph
/// has blocks, under the dominator sets and loop headers of `g`.
pub open spec fn recovered(g: GraphModel<UnTypedIR>, r: Result<Seq<Ir>, StructureError>) -> bool {
    exists|d: Seq<Vec<usize>>, lhs: Seq<usize>|
        {
            &&& is_dominator_sets(g, d)
            &&& #[trigger] is_header_flags(g, d, lhs)
            &&& r == match structured(g, d, lhs, 0, Stop::Never, g.blocks.len()) {
                Ok(w) => Ok::<Seq<Ir>, StructureError>(w.stmts),
                Err(e) => Err::<Seq<Ir>, StructureError>(e),
            }
        }
}

impl Graph<UnTypedIR> {
    /// Folds the graph into one list of statements, or says why it cannot
    /// be folded.
    pub fn try_reconstruct_code(&self) -> (r: Result<Vec<UnTypedIR>, StructureError>)
        requires
            self.wf(),
            self@.blocks.len() > 0,
        ensures
            recovered(
                self@,
                match r {
                    Ok(irs) => Ok::<Seq<Ir>, StructureError>(irs_view(irs@)),
                    Err(e) => Err::<Seq<Ir>, StructureError>(e),
                },
            ),
    {
        let doms = self.dominate_nodes();
        let lhs = self.loop_headers(&doms);
        let fuel = self.nodes.len();
        proof {
            assert(is_header_flags(self@, doms@, lhs@));
        }
        match self.reconstruct_from_node_until(0, &doms, &lhs, Stop::Never, fuel) {
            Ok(w) => Ok(w.1),
            Err(e) => Err(e),
        }
    }

    /// Folds a graph that can be folded into one list of statements.
    pub fn reconstruct_code(&self) -> (irs: Vec<UnTypedIR>)
        requires
            self.wf(),
            self@.blocks.len() > 0,
            forall|r: Result<Seq<Ir>, StructureError>| #[trigger] recovered(self@, r) ==> r is Ok,
        ensures
            recovered(self@, Ok::<Seq<Ir>, StructureError>(irs_view(irs@))),
    {
        match self.try_reconstruct_code() {
            Ok(irs) => irs,
            Err(_) => Vec::new(),
        }
    }
}

} // verus!
