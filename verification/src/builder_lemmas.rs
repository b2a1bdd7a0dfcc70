//! What holds of every graph that is built from commands in which no label
//! is defined twice: a block has at most two successors, and exactly two
//! where it ends in a conditional jump.

use vstd::prelude::*;
use crate::builder::{
    build_run, build_start, build_step, built, lemma_find_label_hit, with_jump, BuildState,
};
use crate::graph::{BlockModel, EdgeKind, GraphModel};
use crate::parser::VmCommand;

verus! {

/// Whether no two `label` commands of `cmds` define the same label.
pub open spec fn labels_unique(cmds: Seq<VmCommand>) -> bool {
    forall|i: int, j: int|
        0 <= i < j < cmds.len() && (#[trigger] cmds[i]) is Label && (#[trigger] cmds[j]) is Label
            ==> cmds[i]->Label_0@ != cmds[j]->Label_0@
}

/// The labels that the `label` commands of `cmds` define.
pub open spec fn defined_labels(cmds: Seq<VmCommand>) -> Set<Seq<char>> {
    Set::new(
        |l: Seq<char>|
            exists|i: int| 0 <= i < cmds.len() && (#[trigger] cmds[i]) is Label && cmds[i]->Label_0@ == l,
    )
}

/// Whether block `b` has a successor that it reaches by a conditional jump.
pub open spec fn branches_on<C>(g: GraphModel<C>, b: int) -> bool {
    exists|j: int|
        0 <= j < g.blocks[b].succs.len() && g.kind(b as usize, #[trigger] g.blocks[b].succs[j])
            == Some(EdgeKind::IfGoto)
}

/// Whether block `b` has at most two successors, and two exactly where it
/// reaches one of them by a conditional jump.
pub open spec fn shape_ok<C>(g: GraphModel<C>, b: int) -> bool {
    g.blocks[b].succs.len() <= 2 && (g.blocks[b].succs.len() == 2 <==> branches_on(g, b))
}

/// What holds of block `b` while the graph is built: with two successors
/// the first is the taken branch and the second is not; with one, it is no
/// taken branch.
pub open spec fn block_inv<C>(g: GraphModel<C>, b: int) -> bool {
    let s = g.blocks[b].succs;
    &&& s.len() <= 2
    &&& s.len() == 2 ==> g.kind(b as usize, s[0]) == Some(EdgeKind::IfGoto) && g.kind(
        b as usize,
        s[1],
    ) != Some(EdgeKind::IfGoto)
    &&& s.len() == 1 ==> g.kind(b as usize, s[0]) != Some(EdgeKind::IfGoto)
}

/// What holds of the state while the graph is built, `defined` being the
/// labels defined so far.
pub open spec fn build_inv(st: BuildState, defined: Set<Seq<char>>, bound: int) -> bool {
    let g = st.graph;
    &&& 0 < g.blocks.len() <= bound <= usize::MAX
    &&& st.cur < g.blocks.len()
    &&& g.blocks[st.cur as int].succs.len() == 0
    &&& forall|b: int| 0 <= b < g.blocks.len() ==> #[trigger] block_inv(g, b)
    &&& forall|s: usize, d: usize| #[trigger]
        g.kinds.contains_key((s, d)) ==> s < g.blocks.len() && g.blocks[s as int].succs.len() > 0
    &&& forall|b: int|
        0 <= b < g.blocks.len() && (#[trigger] g.blocks[b]).label is Some && !defined.contains(
            g.blocks[b].label->Some_0,
        ) ==> g.blocks[b].succs.len() == 0
    &&& g.blocks[st.cur as int].label is Some ==> defined.contains(
        g.blocks[st.cur as int].label->Some_0,
    )
}

/// The labels defined once `c` has been read.
pub open spec fn defined_after(defined: Set<Seq<char>>, c: VmCommand) -> Set<Seq<char>> {
    if c is Label {
        defined.insert(c->Label_0@)
    } else {
        defined
    }
}

/// One step of the construction keeps what holds of the state, where the
/// command defines no label a second time.
pub proof fn lemma_build_step_inv(st: BuildState, c: VmCommand, defined: Set<Seq<char>>, bound: int)
    requires
        build_inv(st, defined, bound),
        bound + 2 <= usize::MAX,
        c is Label ==> !defined.contains(c->Label_0@),
    ensures
        build_inv(build_step(st, c), defined_after(defined, c), bound + 2),
{
    let g = st.graph;
    let cur = st.cur;
    let n = g.blocks.len() as int;
    let after = build_step(st, c);
    let h = after.graph;
    match c {
        VmCommand::Label(l) => {
            lemma_find_label_hit(g, l@, n);
            match g.find_label(l@) {
                Some(t) => {
                    assert(g.blocks[t as int].succs.len() == 0);
                    assert(t != cur);
                    assert forall|b: int| 0 <= b < h.blocks.len() implies #[trigger] block_inv(h, b) by {
                        assert(block_inv(g, b));
                        if b == cur {
                            assert(!g.kinds.contains_key((cur, t)));
                        }
                    }
                },
                None => {
                    if g.blocks[cur as int].is_empty() {
                        assert forall|b: int| 0 <= b < h.blocks.len() implies #[trigger] block_inv(
                            h,
                            b,
                        ) by {
                            assert(block_inv(g, b));
                        }
                    } else {
                        assert forall|b: int| 0 <= b < h.blocks.len() implies #[trigger] block_inv(
                            h,
                            b,
                        ) by {
                            if b < n {
                                assert(block_inv(g, b));
                            }
                            if b == cur {
                                assert(!g.kinds.contains_key((cur, n as usize)));
                            }
                        }
                    }
                },
            }
        },
        VmCommand::Goto(l) => {
            lemma_find_label_hit(g, l@, n);
            if g.find_label(l@) is None && g.blocks[cur as int].is_empty() {
                assert forall|b: int| 0 <= b < h.blocks.len() implies #[trigger] block_inv(h, b) by {
                    if b < n {
                        assert(block_inv(g, b));
                    }
                }
            } else {
                lemma_jump_inv(st, l@, EdgeKind::Goto, defined, bound);
                let g1 = with_jump(g, cur, l@, EdgeKind::Goto);
                assert forall|b: int| 0 <= b < h.blocks.len() implies #[trigger] block_inv(h, b) by {
                    if b < g1.blocks.len() {
                        assert(block_inv(g1, b));
                    }
                }
            }
        },
        VmCommand::IfGoto(l) => {
            lemma_jump_inv(st, l@, EdgeKind::IfGoto, defined, bound);
            let g1 = with_jump(g, cur, l@, EdgeKind::IfGoto);
            let f = g1.blocks.len() as usize;
            assert forall|b: int| 0 <= b < h.blocks.len() implies #[trigger] block_inv(h, b) by {
                if b < g1.blocks.len() && b != cur {
                    assert(block_inv(g1, b));
                }
                if b == cur {
                    assert(!g1.kinds.contains_key((cur, f)));
                }
            }
        },
        _ => {
            assert forall|b: int| 0 <= b < h.blocks.len() implies #[trigger] block_inv(h, b) by {
                assert(block_inv(g, b));
            }
        },
    }
}

/// What a jump from the current block leaves: the current block has the
/// one successor, marked with the kind of the jump, and all else holds as
/// before.
pub proof fn lemma_jump_inv(
    st: BuildState,
    l: Seq<char>,
    kind: EdgeKind,
    defined: Set<Seq<char>>,
    bound: int,
)
    requires
        build_inv(st, defined, bound),
        bound + 2 <= usize::MAX,
    ensures
        ({
            let g = st.graph;
            let g1 = with_jump(g, st.cur, l, kind);
            &&& g.blocks.len() <= g1.blocks.len() <= g.blocks.len() + 1
            &&& g1.blocks[st.cur as int].succs.len() == 1
            &&& g1.blocks[st.cur as int].succs[0] < g1.blocks.len()
            &&& g1.blocks[st.cur as int].label == g.blocks[st.cur as int].label
            &&& g1.kind(st.cur, g1.blocks[st.cur as int].succs[0]) == Some(kind)
            &&& forall|b: int| 0 <= b < g1.blocks.len() && b != st.cur ==> #[trigger] block_inv(g1, b)
            &&& forall|s: usize, d: usize| #[trigger]
                g1.kinds.contains_key((s, d)) ==> s < g1.blocks.len() && g1.blocks[s as int].succs.len()
                    > 0
            &&& forall|s: usize, d: usize| #[trigger]
                g1.kinds.contains_key((s, d)) && s == st.cur ==> d == g1.blocks[st.cur as int].succs[0]
            &&& forall|b: int|
                0 <= b < g1.blocks.len() && (#[trigger] g1.blocks[b]).label is Some
                    && !defined.contains(g1.blocks[b].label->Some_0) ==> g1.blocks[b].succs.len() == 0
        }),
{
    let g = st.graph;
    let cur = st.cur;
    let n = g.blocks.len() as int;
    let g1 = with_jump(g, cur, l, kind);
    lemma_find_label_hit(g, l, n);
    assert forall|b: int| 0 <= b < g1.blocks.len() && b != cur implies #[trigger] block_inv(g1, b) by {
        if b < n {
            assert(block_inv(g, b));
        }
    }
    assert forall|s: usize, d: usize| #[trigger] g1.kinds.contains_key((s, d)) implies s
        < g1.blocks.len() && g1.blocks[s as int].succs.len() > 0 by {
        if g.kinds.contains_key((s, d)) {
        }
    }
}

/// All through the construction the state keeps what `build_inv` says,
/// where no label is defined twice.
pub proof fn lemma_build_run_inv(cmds: Seq<VmCommand>)
    requires
        labels_unique(cmds),
        1 + 2 * cmds.len() <= usize::MAX,
    ensures
        build_inv(build_run(cmds), defined_labels(cmds), 1 + 2 * (cmds.len() as int)),
    decreases cmds.len(),
{
    if cmds.len() == 0 {
        let g = build_start().graph;
        assert forall|b: int| 0 <= b < g.blocks.len() implies #[trigger] block_inv(g, b) by {}
    } else {
        let prefix = cmds.drop_last();
        let c = cmds.last();
        assert forall|i: int, j: int|
            0 <= i < j < prefix.len() && (#[trigger] prefix[i]) is Label && (
            #[trigger] prefix[j]) is Label implies prefix[i]->Label_0@ != prefix[j]->Label_0@ by {
            assert(prefix[i] == cmds[i] && prefix[j] == cmds[j]);
        }
        lemma_build_run_inv(prefix);
        if c is Label {
            if defined_labels(prefix).contains(c->Label_0@) {
                let i = choose|i: int|
                    0 <= i < prefix.len() && (#[trigger] prefix[i]) is Label && prefix[i]->Label_0@
                        == c->Label_0@;
                assert(cmds[i] == prefix[i]);
                assert(cmds[cmds.len() - 1] == c);
            }
        }
        lemma_build_step_inv(build_run(prefix), c, defined_labels(prefix), 1 + 2 * (prefix.len() as int));
        assert(defined_after(defined_labels(prefix), c) =~= defined_labels(cmds)) by {
            assert forall|l: Seq<char>| defined_after(defined_labels(prefix), c).contains(l)
                == defined_labels(cmds).contains(l) by {
                if defined_labels(cmds).contains(l) {
                    let i = choose|i: int|
                        0 <= i < cmds.len() && (#[trigger] cmds[i]) is Label && cmds[i]->Label_0@ == l;
                    if i < prefix.len() {
                        assert(prefix[i] == cmds[i]);
                    }
                }
                if defined_labels(prefix).contains(l) {
                    let i = choose|i: int|
                        0 <= i < prefix.len() && (#[trigger] prefix[i]) is Label && prefix[i]->Label_0@
                            == l;
                    assert(cmds[i] == prefix[i]);
                }
                if c is Label && c->Label_0@ == l {
                    assert(cmds[cmds.len() - 1] is Label);
                }
            }
        }
    }
}

/// In the graph of commands that define no label twice, every block has
/// at most two successors, and it has two exactly where one of them is
/// reached by a conditional jump.
pub proof fn lemma_successor_count(cmds: Seq<VmCommand>, b: int)
    requires
        labels_unique(cmds),
        1 + 2 * cmds.len() <= usize::MAX,
        0 <= b < built(cmds).blocks.len(),
    ensures
        shape_ok(built(cmds), b),
{
    lemma_build_run_inv(cmds);
    let g = build_run(cmds).graph;
    let h = built(cmds);
    assert(block_inv(g, b));
    if g.is_dead(b) {
        assert(h.blocks[b].succs.len() == 0);
    } else {
        assert(h.blocks[b] == g.blocks[b]);
        let s = g.blocks[b].succs;
        if s.len() == 2 {
            assert(h.kind(b as usize, h.blocks[b].succs[0]) == Some(EdgeKind::IfGoto));
        }
    }
}

} // verus!
