//! The control-flow graph: basic blocks held by index, their successor lists
//! and the kinds of the edges between them.

use vstd::prelude::*;

verus! {

/// What an edge that is no plain fallthrough stands for.
#[derive(Debug, Clone, Copy, PartialEq, Eq, Structural)]
pub enum EdgeKind {
    /// An unconditional jump.
    Goto,
    /// The taken branch of a conditional jump.
    IfGoto,
}

/// The kind recorded for the edge from `src` to `dst`.
#[derive(Debug, Clone, Copy)]
pub struct EdgeLabel {
    pub src: usize,
    pub dst: usize,
    pub kind: EdgeKind,
}

/// A basic block: a straight-line run of commands and where control goes
/// after it.
pub struct BasicBlock<CmdType> {
    pub index: usize,
    pub neighbors: Vec<usize>,
    pub label: Option<String>,
    pub commands: Vec<CmdType>,
}

/// A control-flow graph. Blocks are named by their position in `nodes`; a
/// later entry of `edge_label` for the same edge replaces an earlier one.
pub struct Graph<CmdType> {
    pub nodes: Vec<BasicBlock<CmdType>>,
    pub edge_label: Vec<EdgeLabel>,
}

/// The model of a block.
pub struct BlockModel<CmdType> {
    pub succs: Seq<usize>,
    pub label: Option<Seq<char>>,
    pub commands: Seq<CmdType>,
}

/// The model of a graph: its blocks in order and the map from an edge to
/// its kind. An edge without an entry is a fallthrough.
pub struct GraphModel<CmdType> {
    pub blocks: Seq<BlockModel<CmdType>>,
    pub kinds: Map<(usize, usize), EdgeKind>,
}

/// The map that a list of edge labels stands for.
pub open spec fn kinds_of(labels: Seq<EdgeLabel>) -> Map<(usize, usize), EdgeKind>
    decreases labels.len(),
{
    if labels.len() == 0 {
        Map::empty()
    } else {
        kinds_of(labels.drop_last()).insert((labels.last().src, labels.last().dst), labels.last().kind)
    }
}

/// The text of an optional label.
pub open spec fn label_text(l: Option<String>) -> Option<Seq<char>> {
    match l {
        Some(s) => Some(s@),
        None => None,
    }
}

impl<CmdType> View for BasicBlock<CmdType> {
    type V = BlockModel<CmdType>;

    open spec fn view(&self) -> BlockModel<CmdType> {
        BlockModel { succs: self.neighbors@, label: label_text(self.label), commands: self.commands@ }
    }
}

impl<CmdType> View for Graph<CmdType> {
    type V = GraphModel<CmdType>;

    open spec fn view(&self) -> GraphModel<CmdType> {
        GraphModel {
            blocks: Seq::new(self.nodes@.len(), |i: int| self.nodes@[i]@),
            kinds: kinds_of(self.edge_label@),
        }
    }
}

impl<CmdType> BlockModel<CmdType> {
    /// A block without successors, label or commands.
    pub open spec fn empty() -> Self {
        BlockModel { succs: Seq::empty(), label: None, commands: Seq::empty() }
    }

    /// A fresh block that carries the label `l`.
    pub open spec fn labeled(l: Seq<char>) -> Self {
        BlockModel { succs: Seq::empty(), label: Some(l), commands: Seq::empty() }
    }

    /// Whether the block has no successors, no label and no commands.
    pub open spec fn is_empty(self) -> bool {
        self.succs.len() == 0 && self.label is None && self.commands.len() == 0
    }
}

impl<CmdType> GraphModel<CmdType> {
    /// Every successor names a block of the graph.
    pub open spec fn wf(self) -> bool {
        forall|i: int, j: int|
            0 <= i < self.blocks.len() && 0 <= j < self.blocks[i].succs.len() ==> (
            #[trigger] self.blocks[i].succs[j]) < self.blocks.len()
    }

    /// Whether `p` has an edge to `n`.
    pub open spec fn is_pred(self, p: int, n: int) -> bool {
        0 <= p < self.blocks.len() && exists|j: int|
            0 <= j < self.blocks[p].succs.len() && #[trigger] self.blocks[p].succs[j] == n
    }

    /// Whether some block has an edge to `n`.
    pub open spec fn has_pred(self, n: int) -> bool {
        exists|p: int| self.is_pred(p, n)
    }

    /// The position of the first block labeled `l` among the first `k`.
    pub open spec fn find_label_below(self, l: Seq<char>, k: int) -> Option<usize>
        decreases k,
    {
        if k <= 0 {
            None
        } else {
            match self.find_label_below(l, k - 1) {
                Some(i) => Some(i),
                None => if self.blocks[k - 1].label == Some(l) {
                    Some((k - 1) as usize)
                } else {
                    None
                },
            }
        }
    }

    /// The position of the first block labeled `l`.
    pub open spec fn find_label(self, l: Seq<char>) -> Option<usize> {
        self.find_label_below(l, self.blocks.len() as int)
    }

    /// The graph with `b` added as its last block.
    pub open spec fn with_block(self, b: BlockModel<CmdType>) -> Self {
        GraphModel { blocks: self.blocks.push(b), kinds: self.kinds }
    }

    /// The graph with `d` added to the successors of `s`.
    pub open spec fn with_succ(self, s: int, d: usize) -> Self {
        GraphModel {
            blocks: self.blocks.update(
                s,
                BlockModel { succs: self.blocks[s].succs.push(d), ..self.blocks[s] },
            ),
            kinds: self.kinds,
        }
    }

    /// The graph with the edge from `s` to `d` marked as `kind`.
    pub open spec fn with_kind(self, s: usize, d: usize, kind: EdgeKind) -> Self {
        GraphModel { blocks: self.blocks, kinds: self.kinds.insert((s, d), kind) }
    }

    /// The graph with block `s` labeled `l`.
    pub open spec fn with_label(self, s: int, l: Seq<char>) -> Self {
        GraphModel {
            blocks: self.blocks.update(s, BlockModel { label: Some(l), ..self.blocks[s] }),
            kinds: self.kinds,
        }
    }

    /// Whether block `i` has no label, no commands and no predecessor.
    pub open spec fn is_dead(self, i: int) -> bool {
        self.blocks[i].label is None && self.blocks[i].commands.len() == 0 && !self.has_pred(i)
    }

    /// The graph in which every dead block has lost its successors.
    pub open spec fn shrunk(self) -> Self {
        GraphModel {
            blocks: Seq::new(
                self.blocks.len(),
                |i: int|
                    if self.is_dead(i) {
                        BlockModel { succs: Seq::empty(), ..self.blocks[i] }
                    } else {
                        self.blocks[i]
                    },
            ),
            kinds: self.kinds,
        }
    }

    /// The kind of the edge from `s` to `d`, if one is recorded.
    pub open spec fn kind(self, s: usize, d: usize) -> Option<EdgeKind> {
        if self.kinds.contains_key((s, d)) {
            Some(self.kinds[(s, d)])
        } else {
            None
        }
    }

    /// The graph with `c` added to the commands of block `s`.
    pub open spec fn with_command(self, s: int, c: CmdType) -> Self {
        GraphModel {
            blocks: self.blocks.update(
                s,
                BlockModel { commands: self.blocks[s].commands.push(c), ..self.blocks[s] },
            ),
            kinds: self.kinds,
        }
    }
}

impl<CmdType> BasicBlock<CmdType> {
    /// Whether the block has no successors, no label and no commands.
    pub fn is_empty(&self) -> (r: bool)
        ensures
            r == self@.is_empty(),
    {
        self.neighbors.len() == 0 && self.label.is_none() && self.commands.len() == 0
    }

    /// A fresh block that carries `label`.
    pub fn labeled(label: String) -> (r: Self)
        ensures
            r@ == BlockModel::<CmdType>::labeled(label@),
            r.index == 0,
    {
        BasicBlock { index: 0, neighbors: Vec::new(), label: Some(label), commands: Vec::new() }
    }
}

impl<CmdType> Default for BasicBlock<CmdType> {
    fn default() -> (r: Self)
        ensures
            r@ == BlockModel::<CmdType>::empty(),
            r.index == 0,
    {
        BasicBlock { index: 0, neighbors: Vec::new(), label: None, commands: Vec::new() }
    }
}

impl<CmdType> Graph<CmdType> {
    /// Every block knows its own position and every successor names a block.
    pub open spec fn wf(&self) -> bool {
        &&& self@.wf()
        &&& forall|i: int| 0 <= i < self.nodes@.len() ==> (#[trigger] self.nodes@[i]).index == i
    }

    /// A graph without blocks.
    pub fn new() -> (r: Self)
        ensures
            r@.blocks == Seq::<BlockModel<CmdType>>::empty(),
            r@.kinds == Map::<(usize, usize), EdgeKind>::empty(),
            r.wf(),
    {
        let r = Graph { nodes: Vec::new(), edge_label: Vec::new() };
        assert(r@.blocks =~= Seq::<BlockModel<CmdType>>::empty());
        r
    }

    /// The number of blocks.
    pub fn len(&self) -> (r: usize)
        ensures
            r == self@.blocks.len(),
    {
        self.nodes.len()
    }

    /// Adds `node` as the last block and returns its position.
    pub fn add_node(&mut self, node: BasicBlock<CmdType>) -> (index: usize)
        requires
            old(self).wf(),
            forall|j: int| 0 <= j < node@.succs.len() ==> #[trigger] node@.succs[j] <= old(self)@.blocks.len(),
        ensures
            index == old(self)@.blocks.len(),
            final(self)@ == old(self)@.with_block(node@),
            final(self).wf(),
    {
        let index = self.nodes.len();
        let mut node = node;
        node.index = index;
        self.nodes.push(node);
        assert(self@.blocks =~= old(self)@.blocks.push(node@));
        index
    }

    /// Adds `d` to the successors of `s`, whether or not it is one already.
    pub fn push_edge(&mut self, s: usize, d: usize)
        requires
            old(self).wf(),
            s < old(self)@.blocks.len(),
            d < old(self)@.blocks.len(),
        ensures
            final(self)@ == old(self)@.with_succ(s as int, d),
            final(self).wf(),
    {
        self.nodes[s].neighbors.push(d);
        assert(self@.blocks =~= old(self)@.with_succ(s as int, d).blocks);
    }
}

impl<CmdType> Graph<CmdType> {
    /// Labels block `s` with `label`.
    pub fn set_label(&mut self, s: usize, label: String)
        requires
            old(self).wf(),
            s < old(self)@.blocks.len(),
        ensures
            final(self)@ == old(self)@.with_label(s as int, label@),
            final(self).wf(),
    {
        self.nodes[s].label = Some(label);
        assert(self@.blocks =~= old(self)@.with_label(s as int, label@).blocks);
    }

    /// Adds `c` to the commands of block `s`.
    pub fn push_command(&mut self, s: usize, c: CmdType)
        requires
            old(self).wf(),
            s < old(self)@.blocks.len(),
        ensures
            final(self)@ == old(self)@.with_command(s as int, c),
            final(self).wf(),
    {
        self.nodes[s].commands.push(c);
        assert(self@.blocks =~= old(self)@.with_command(s as int, c).blocks);
    }

    /// Records `kind` for the edge from `s` to `d`.
    pub fn set_kind(&mut self, s: usize, d: usize, kind: EdgeKind)
        ensures
            final(self)@ == old(self)@.with_kind(s, d, kind),
            final(self).wf() == old(self).wf(),
    {
        self.edge_label.push(EdgeLabel { src: s, dst: d, kind });
        assert(self.edge_label@.drop_last() =~= old(self).edge_label@);
        assert(self@.blocks =~= old(self)@.blocks);
    }

    /// The kind recorded for the edge from `s` to `d`.
    pub fn edge_kind(&self, s: usize, d: usize) -> (r: Option<EdgeKind>)
        ensures
            r == self@.kind(s, d),
    {
        let mut found: Option<EdgeKind> = None;
        let mut i: usize = 0;
        assert(self.edge_label@.take(0) =~= Seq::empty());
        while i < self.edge_label.len()
            invariant
                i <= self.edge_label@.len(),
                found == (GraphModel::<CmdType> {
                    blocks: Seq::empty(),
                    kinds: kinds_of(self.edge_label@.take(i as int)),
                }).kind(s, d),
            decreases self.edge_label@.len() - i,
        {
            assert(self.edge_label@.take(i as int + 1).drop_last() =~= self.edge_label@.take(
                i as int,
            ));
            if self.edge_label[i].src == s && self.edge_label[i].dst == d {
                found = Some(self.edge_label[i].kind);
            }
            i = i + 1;
        }
        assert(self.edge_label@.take(i as int) =~= self.edge_label@);
        found
    }

    /// The position of the first block labeled `label`.
    pub fn find_node_by_label(&self, label: &String) -> (r: Option<usize>)
        ensures
            r == self@.find_label(label@),
    {
        let mut i: usize = 0;
        while i < self.nodes.len()
            invariant
                i <= self.nodes@.len(),
                self@.find_label_below(label@, i as int) is None,
            decreases self.nodes@.len() - i,
        {
            let hit = match &self.nodes[i].label {
                Some(l) => *l == *label,
                None => false,
            };
            if hit {
                proof {
                    lemma_find_label_stays(self@, label@, i as int + 1, self.nodes@.len() as int);
                }
                return Some(i);
            }
            i = i + 1;
        }
        None
    }

    /// Whether `d` is among the successors of `s`.
    pub fn has_edge(&self, s: usize, d: usize) -> (r: bool)
        requires
            s < self@.blocks.len(),
        ensures
            r == self@.is_pred(s as int, d as int),
    {
        let mut j: usize = 0;
        while j < self.nodes[s as usize].neighbors.len()
            invariant
                s < self.nodes@.len(),
                j <= self.nodes@[s as int].neighbors@.len(),
                forall|k: int| 0 <= k < j ==> self@.blocks[s as int].succs[k] != d,
            decreases self.nodes@[s as int].neighbors@.len() - j,
        {
            if self.nodes[s].neighbors[j] == d {
                assert(self@.blocks[s as int].succs[j as int] == d);
                return true;
            }
            j = j + 1;
        }
        false
    }

    /// The blocks that have an edge to `node`, in rising order.
    pub fn pred(&self, node: usize) -> (r: Vec<usize>)
        ensures
            forall|k: int| 0 <= k < r@.len() ==> self@.is_pred(#[trigger] r@[k] as int, node as int),
            forall|k: int, m: int| 0 <= k < m < r@.len() ==> r@[k] < r@[m],
            forall|p: int| self@.is_pred(p, node as int) ==> r@.contains(p as usize),
            self@.has_pred(node as int) == (r@.len() > 0),
    {
        let mut r: Vec<usize> = Vec::new();
        let mut i: usize = 0;
        while i < self.nodes.len()
            invariant
                i <= self.nodes@.len(),
                forall|k: int| 0 <= k < r@.len() ==> self@.is_pred(#[trigger] r@[k] as int, node as int),
                forall|k: int| 0 <= k < r@.len() ==> #[trigger] r@[k] < i,
                forall|k: int, m: int| 0 <= k < m < r@.len() ==> r@[k] < r@[m],
                forall|p: int| 0 <= p < i && self@.is_pred(p, node as int) ==> r@.contains(p as usize),
            decreases self.nodes@.len() - i,
        {
            if self.has_edge(i, node) {
                let ghost before = r@;
                r.push(i);
                assert forall|p: int| 0 <= p < i + 1 && self@.is_pred(p, node as int) implies r@.contains(
                    p as usize,
                ) by {
                    if p < i {
                        let k = choose|k: int| 0 <= k < before.len() && before[k] == p as usize;
                        assert(r@[k] == p as usize);
                    } else {
                        assert(r@[r@.len() - 1] == p as usize);
                    }
                }
            }
            i = i + 1;
        }
        proof {
            if r@.len() > 0 {
                assert(self@.is_pred(r@[0] as int, node as int));
            }
            if self@.has_pred(node as int) {
                let p = choose|p: int| self@.is_pred(p, node as int);
                assert(r@.contains(p as usize));
            }
        }
        r
    }

    /// Adds `d` to the successors of `s` unless it is one already.
    pub fn add_edge(&mut self, s: usize, d: usize)
        requires
            old(self).wf(),
            s < old(self)@.blocks.len(),
            d < old(self)@.blocks.len(),
        ensures
            final(self)@ == if old(self)@.is_pred(s as int, d as int) {
                old(self)@
            } else {
                old(self)@.with_succ(s as int, d)
            },
            final(self).wf(),
    {
        if !self.has_edge(s, d) {
            self.push_edge(s, d);
        }
    }

    /// Clears the successors of block `s`.
    fn clear_succs(&mut self, s: usize)
        requires
            s < old(self).nodes@.len(),
        ensures
            final(self).nodes@.len() == old(self).nodes@.len(),
            final(self)@.kinds == old(self)@.kinds,
            final(self)@.blocks == old(self)@.blocks.update(
                s as int,
                BlockModel { succs: Seq::empty(), ..old(self)@.blocks[s as int] },
            ),
            forall|k: int|
                0 <= k < old(self).nodes@.len() ==> (#[trigger] final(self).nodes@[k]).index == old(
                    self,
                ).nodes@[k].index,
    {
        self.nodes[s].neighbors.clear();
        assert(self@.blocks =~= old(self)@.blocks.update(
            s as int,
            BlockModel { succs: Seq::empty(), ..old(self)@.blocks[s as int] },
        ));
    }

    /// Clears the successors of every block without label, commands and
    /// predecessor. The blocks keep their positions.
    pub fn shrink(&mut self)
        requires
            old(self).wf(),
        ensures
            final(self)@ == old(self)@.shrunk(),
            final(self).wf(),
    {
        let n = self.nodes.len();
        let mut dead: Vec<bool> = Vec::new();
        let mut i: usize = 0;
        while i < n
            invariant
                i <= n,
                n == self.nodes@.len(),
                dead@.len() == i,
                forall|k: int| 0 <= k < i ==> dead@[k] == self@.is_dead(k),
            decreases n - i,
        {
            let incoming = self.pred(i).len() > 0;
            dead.push(self.nodes[i].label.is_none() && self.nodes[i].commands.len() == 0 && !incoming);
            i = i + 1;
        }
        let mut t: usize = 0;
        while t < n
            invariant
                t <= n,
                n == self.nodes@.len(),
                n == old(self).nodes@.len(),
                dead@.len() == n,
                self@.kinds == old(self)@.kinds,
                forall|k: int| 0 <= k < n ==> dead@[k] == old(self)@.is_dead(k),
                forall|k: int| 0 <= k < t ==> #[trigger] self@.blocks[k] == old(self)@.shrunk().blocks[k],
                forall|k: int| t <= k < n ==> #[trigger] self@.blocks[k] == old(self)@.blocks[k],
                forall|k: int| 0 <= k < n ==> (#[trigger] self.nodes@[k]).index == k,
            decreases n - t,
        {
            if dead[t] {
                self.clear_succs(t);
            }
            t = t + 1;
        }
        assert(self@.blocks =~= old(self)@.shrunk().blocks);
    }
}

/// The first block labeled `l` among the first `k` is the first among more.
pub proof fn lemma_find_label_stays<CmdType>(g: GraphModel<CmdType>, l: Seq<char>, k: int, m: int)
    requires
        0 <= k <= m,
        g.find_label_below(l, k) is Some,
    ensures
        g.find_label_below(l, m) == g.find_label_below(l, k),
    decreases m - k,
{
    if k < m {
        lemma_find_label_stays(g, l, k, m - 1);
    }
}

} // verus!
