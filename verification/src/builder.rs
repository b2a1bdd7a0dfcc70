//! Building the control-flow graph of one function from its commands.

use vstd::prelude::*;
use crate::graph::{BasicBlock, BlockModel, EdgeKind, Graph, GraphModel};
use crate::parser::VmCommand;

verus! {

/// The graph built so far and the block that takes the next command.
pub struct BuildState {
    pub graph: GraphModel<VmCommand>,
    pub cur: usize,
}

/// The graph after a jump of kind `kind` from `cur` to the block labeled
/// `l`, which is made if there is none.
pub open spec fn with_jump(
    g: GraphModel<VmCommand>,
    cur: usize,
    l: Seq<char>,
    kind: EdgeKind,
) -> GraphModel<VmCommand> {
    let m = g.blocks.len() as usize;
    match g.find_label(l) {
        Some(n) => g.with_succ(cur as int, n).with_kind(cur, n, kind),
        None => g.with_block(BlockModel::labeled(l)).with_succ(cur as int, m).with_kind(cur, m, kind),
    }
}

/// The effect of one command on the graph under construction.
///
/// A `label` moves on to the block of that label over a fallthrough edge;
/// where there is no such block, the current block takes the label if it
/// is empty, and a new block with the label follows it if not. A `goto`
/// adds a jump to the block of its label, which is made if there is none,
/// but an empty current block without such a target just takes the label;
/// then a fresh block becomes current. An `if-goto` adds the taken edge to
/// the block of its label, which is made if there is none, and then a
/// fallthrough edge to a fresh block, which becomes current. Any other
/// command joins the current block.
pub open spec fn build_step(st: BuildState, c: VmCommand) -> BuildState {
    let g = st.graph;
    let cur = st.cur;
    let m = g.blocks.len() as usize;
    match c {
        VmCommand::Label(l) => match g.find_label(l@) {
            Some(n) => BuildState { graph: g.with_succ(cur as int, n), cur: n },
            None => if g.blocks[cur as int].is_empty() {
                BuildState { graph: g.with_label(cur as int, l@), cur }
            } else {
                BuildState {
                    graph: g.with_block(BlockModel::labeled(l@)).with_succ(cur as int, m),
                    cur: m,
                }
            },
        },
        VmCommand::Goto(l) => {
            let g1 = if g.find_label(l@) is None && g.blocks[cur as int].is_empty() {
                g.with_label(cur as int, l@)
            } else {
                with_jump(g, cur, l@, EdgeKind::Goto)
            };
            BuildState { graph: g1.with_block(BlockModel::empty()), cur: g1.blocks.len() as usize }
        },
        VmCommand::IfGoto(l) => {
            let g1 = with_jump(g, cur, l@, EdgeKind::IfGoto);
            let f = g1.blocks.len() as usize;
            BuildState { graph: g1.with_block(BlockModel::empty()).with_succ(cur as int, f), cur: f }
        },
        other => BuildState { graph: g.with_command(cur as int, other), cur },
    }
}

/// The state before any command: one empty block, which is the entry.
pub open spec fn build_start() -> BuildState {
    BuildState {
        graph: GraphModel { blocks: seq![BlockModel::empty()], kinds: Map::empty() },
        cur: 0,
    }
}

/// The state after all of `cmds`.
pub open spec fn build_run(cmds: Seq<VmCommand>) -> BuildState
    decreases cmds.len(),
{
    if cmds.len() == 0 {
        build_start()
    } else {
        build_step(build_run(cmds.drop_last()), cmds.last())
    }
}

/// The control-flow graph of `cmds`: what the commands build, with the
/// successors of every dead block cleared.
pub open spec fn built(cmds: Seq<VmCommand>) -> GraphModel<VmCommand> {
    build_run(cmds).graph.shrunk()
}

/// A label that is found names a block of the graph, and that block carries
/// the label.
pub proof fn lemma_find_label_hit<CmdType>(g: GraphModel<CmdType>, l: Seq<char>, k: int)
    requires
        0 <= k <= g.blocks.len() <= usize::MAX,
    ensures
        match g.find_label_below(l, k) {
            Some(i) => 0 <= i < k && g.blocks[i as int].label == Some(l) && forall|j: int|
                0 <= j < i ==> (#[trigger] g.blocks[j]).label != Some(l),
            None => forall|j: int| 0 <= j < k ==> (#[trigger] g.blocks[j]).label != Some(l),
        },
    decreases k,
{
    if k > 0 {
        lemma_find_label_hit(g, l, k - 1);
    }
}

impl Graph<VmCommand> {
    /// Adds a jump of kind `kind` from `cur` to the block labeled `label`,
    /// which is made if there is none.
    fn jump(&mut self, cur: usize, label: &String, kind: EdgeKind)
        requires
            old(self).wf(),
            cur < old(self)@.blocks.len(),
        ensures
            final(self)@ == with_jump(old(self)@, cur, label@, kind),
            final(self).wf(),
            final(self)@.blocks.len() >= old(self)@.blocks.len(),
    {
        let total = self.len();
        proof {
            lemma_find_label_hit(self@, label@, total as int);
        }
        let n = match self.find_node_by_label(label) {
            Some(n) => n,
            None => self.add_node(BasicBlock::labeled(label.clone())),
        };
        self.push_edge(cur, n);
        self.set_kind(cur, n, kind);
    }

    /// Builds the control-flow graph of one function. The entry is block 0.
    pub fn build(commands: Vec<VmCommand>) -> (graph: Graph<VmCommand>)
        ensures
            graph@ == built(commands@),
            graph.wf(),
            graph@.blocks.len() > 0,
    {
        let mut graph: Graph<VmCommand> = Graph::new();
        let mut index = graph.add_node(BasicBlock::default());
        assert(graph@.blocks =~= build_start().graph.blocks);
        assert(commands@.take(0) =~= Seq::empty());
        let mut k: usize = 0;
        while k < commands.len()
            invariant
                k <= commands@.len(),
                graph.wf(),
                index < graph@.blocks.len(),
                graph@ == build_run(commands@.take(k as int)).graph,
                index == build_run(commands@.take(k as int)).cur,
            decreases commands@.len() - k,
        {
            proof {
                assert(commands@.take(k as int + 1).drop_last() =~= commands@.take(k as int));
            }
            let total = graph.len();
            match &commands[k] {
                VmCommand::Goto(label) => {
                    proof {
                        lemma_find_label_hit(graph@, label@, total as int);
                    }
                    if graph.find_node_by_label(label).is_none() && graph.nodes[index].is_empty() {
                        graph.set_label(index, label.clone());
                    } else {
                        graph.jump(index, label, EdgeKind::Goto);
                    }
                    index = graph.add_node(BasicBlock::default());
                },
                VmCommand::Label(label) => {
                    proof {
                        lemma_find_label_hit(graph@, label@, total as int);
                    }
                    match graph.find_node_by_label(label) {
                        Some(n) => {
                            graph.push_edge(index, n);
                            index = n;
                        },
                        None => {
                            if graph.nodes[index].is_empty() {
                                graph.set_label(index, label.clone());
                            } else {
                                let new_index = graph.add_node(BasicBlock::labeled(label.clone()));
                                graph.push_edge(index, new_index);
                                index = new_index;
                            }
                        },
                    }
                },
                VmCommand::IfGoto(label) => {
                    graph.jump(index, label, EdgeKind::IfGoto);
                    let not_taken_index = graph.add_node(BasicBlock::default());
                    graph.push_edge(index, not_taken_index);
                    index = not_taken_index;
                },
                cmd => {
                    graph.push_command(index, cmd.clone());
                },
            }
            k = k + 1;
        }
        assert(commands@.take(k as int) =~= commands@);
        graph.shrink();
        graph
    }
}

} // verus!
