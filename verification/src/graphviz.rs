//! A drawing of the graph for diagnosis, as Graphviz text: one box for each
//! block that has an edge, with its dominators, its immediate dominator and
//! its commands, and one arrow for each edge.

use vstd::prelude::*;
use vstd::string::*;
use crate::dominators::{is_dominator_sets, is_idom_list, is_square};
use crate::graph::{label_text, EdgeKind, Graph, GraphModel};
use crate::parser::{segment_name, VmCommand};
use crate::printer::{append_text, text_of};
use crate::structure::is_header_flags;
use crate::text::{append_index, append_int, int_text, nat_text};
use crate::untyped_ir::UnTypedIR;

verus! {

/// What can stand as a command in a box of the drawing.
pub trait Describe {
    /// The text of the command.
    spec fn description(&self) -> Seq<char>;

    /// Appends the text of the command to `out`.
    fn describe(&self, out: &mut String)
        ensures
            final(out)@ == old(out)@ + self.description(),
    ;
}

/// The text of a machine command: its assembly form with the segment in
/// capitals, or the name of a command without arguments.
pub open spec fn command_text(c: VmCommand) -> Seq<char> {
    match c {
        VmCommand::Push(seg, i) => "push "@ + segment_name(seg) + " "@ + int_text(i as int),
        VmCommand::Pop(seg, i) => "pop "@ + segment_name(seg) + " "@ + int_text(i as int),
        VmCommand::Label(s) => "label "@ + s@,
        VmCommand::Goto(s) => "goto "@ + s@,
        VmCommand::IfGoto(s) => "if-goto "@ + s@,
        VmCommand::FunDef(s, i) => "function "@ + s@ + " "@ + int_text(i as int),
        VmCommand::Call(s, i) => "call "@ + s@ + " "@ + int_text(i as int),
        VmCommand::Add => "Add"@,
        VmCommand::Sub => "Sub"@,
        VmCommand::Neg => "Neg"@,
        VmCommand::Eq => "Eq"@,
        VmCommand::Gt => "Gt"@,
        VmCommand::Lt => "Lt"@,
        VmCommand::And => "And"@,
        VmCommand::Or => "Or"@,
        VmCommand::Not => "Not"@,
        VmCommand::Return => "Return"@,
    }
}

impl Describe for VmCommand {
    open spec fn description(&self) -> Seq<char> {
        command_text(*self)
    }

    fn describe(&self, out: &mut String) {
        match self {
            VmCommand::Push(seg, i) => {
                out.append("push ");
                out.append(seg.name());
                out.append(" ");
                append_int(out, *i);
            },
            VmCommand::Pop(seg, i) => {
                out.append("pop ");
                out.append(seg.name());
                out.append(" ");
                append_int(out, *i);
            },
            VmCommand::Label(s) => {
                out.append("label ");
                out.append(s.as_str());
            },
            VmCommand::Goto(s) => {
                out.append("goto ");
                out.append(s.as_str());
            },
            VmCommand::IfGoto(s) => {
                out.append("if-goto ");
                out.append(s.as_str());
            },
            VmCommand::FunDef(s, i) => {
                out.append("function ");
                out.append(s.as_str());
                out.append(" ");
                append_int(out, *i);
            },
            VmCommand::Call(s, i) => {
                out.append("call ");
                out.append(s.as_str());
                out.append(" ");
                append_int(out, *i);
            },
            VmCommand::Add => out.append("Add"),
            VmCommand::Sub => out.append("Sub"),
            VmCommand::Neg => out.append("Neg"),
            VmCommand::Eq => out.append("Eq"),
            VmCommand::Gt => out.append("Gt"),
            VmCommand::Lt => out.append("Lt"),
            VmCommand::And => out.append("And"),
            VmCommand::Or => out.append("Or"),
            VmCommand::Not => out.append("Not"),
            VmCommand::Return => out.append("Return"),
        }
        assert(out@ =~= old(out)@ + command_text(*self));
    }
}

impl Describe for UnTypedIR {
    open spec fn description(&self) -> Seq<char> {
        text_of(self@)
    }

    fn describe(&self, out: &mut String) {
        append_text(self, out);
    }
}

/// The texts of the first `k` of `cmds`, separated by a backslash and `n`.
pub open spec fn commands_text<C: Describe>(cmds: Seq<C>, k: nat) -> Seq<char>
    decreases k,
{
    if k == 0 {
        Seq::empty()
    } else if k == 1 {
        cmds[0].description()
    } else {
        commands_text(cmds, (k - 1) as nat) + "\\n"@ + cmds[k - 1].description()
    }
}

/// The members of `row` below `k`, each after a blank.
pub open spec fn members_text(row: Seq<usize>, k: nat) -> Seq<char>
    decreases k,
{
    if k == 0 {
        Seq::empty()
    } else if row[k - 1] == 1 {
        members_text(row, (k - 1) as nat) + " "@ + nat_text((k - 1) as nat)
    } else {
        members_text(row, (k - 1) as nat)
    }
}

/// The text of the kind of an edge: empty for a fallthrough.
pub open spec fn kind_text(kind: Option<EdgeKind>) -> Seq<char> {
    match kind {
        Some(EdgeKind::Goto) => "goto"@,
        Some(EdgeKind::IfGoto) => "if-goto"@,
        None => Seq::empty(),
    }
}

/// The arrows for the first `k` successors of block `i`.
pub open spec fn edges_text<C>(g: GraphModel<C>, i: usize, k: nat) -> Seq<char>
    decreases k,
{
    if k == 0 {
        Seq::empty()
    } else {
        let s = g.blocks[i as int].succs[k - 1];
        edges_text(g, i, (k - 1) as nat) + nat_text(i as nat) + "->"@ + nat_text(s as nat)
            + "[label=\""@ + kind_text(g.kind(i, s)) + "\"];\n"@
    }
}

/// The text of an optional label: empty where there is none.
pub open spec fn label_or_empty(l: Option<Seq<char>>) -> Seq<char> {
    match l {
        Some(s) => s,
        None => Seq::empty(),
    }
}

/// The start of the box of block `i`: its number, the header mark and its
/// number again.
pub open spec fn box_head(i: usize, flag: usize) -> Seq<char> {
    nat_text(i as nat) + " [shape=box,label=\""@ + (if flag == 1 {
        "header"@
    } else {
        Seq::empty()
    }) + "\\n"@ + nat_text(i as nat)
}

/// The middle of a box: the label and the dominators.
pub open spec fn box_middle(label: Option<Seq<char>>, row: Seq<usize>) -> Seq<char> {
    "\\nlabel="@ + label_or_empty(label) + "\\ndoms{"@ + members_text(row, row.len()) + "}"@
}

/// The end of a box: the immediate dominator and the commands.
pub open spec fn box_tail<C: Describe>(idom: usize, cmds: Seq<C>) -> Seq<char> {
    "\\nidom="@ + nat_text(idom as nat) + "\\n"@ + commands_text(cmds, cmds.len()) + "\"];\n"@
}

/// The box and the arrows of block `i`: nothing for a block without edges.
pub open spec fn node_text<C: Describe>(
    g: GraphModel<C>,
    d: Seq<Vec<usize>>,
    idom: Seq<usize>,
    lhs: Seq<usize>,
    i: usize,
) -> Seq<char> {
    let b = g.blocks[i as int];
    if b.succs.len() == 0 && !g.has_pred(i as int) {
        Seq::empty()
    } else {
        box_head(i, lhs[i as int]) + box_middle(b.label, d[i as int]@) + box_tail(
            idom[i as int],
            b.commands,
        ) + edges_text(g, i, b.succs.len())
    }
}

/// The boxes and arrows of the first `k` blocks.
pub open spec fn nodes_text<C: Describe>(
    g: GraphModel<C>,
    d: Seq<Vec<usize>>,
    idom: Seq<usize>,
    lhs: Seq<usize>,
    k: nat,
) -> Seq<char>
    decreases k,
{
    if k == 0 {
        Seq::empty()
    } else {
        nodes_text(g, d, idom, lhs, (k - 1) as nat) + node_text(g, d, idom, lhs, (k - 1) as usize)
    }
}

/// The drawing of `g` with the dominator sets `d`, the immediate
/// dominators `idom` and the loop header flags `lhs`.
pub open spec fn dot_text<C: Describe>(
    g: GraphModel<C>,
    d: Seq<Vec<usize>>,
    idom: Seq<usize>,
    lhs: Seq<usize>,
) -> Seq<char> {
    "digraph G {\n"@ + nodes_text(g, d, idom, lhs, g.blocks.len()) + "}\n"@
}

/// Whether `text` is the drawing of `g` under its dominator sets, the
/// immediate dominators they give and its loop headers.
pub open spec fn is_drawing<C: Describe>(g: GraphModel<C>, text: Seq<char>) -> bool {
    exists|d: Seq<Vec<usize>>, idom: Seq<usize>, lhs: Seq<usize>|
        {
            &&& is_dominator_sets(g, d)
            &&& is_idom_list(d, idom)
            &&& #[trigger] is_header_flags(g, d, lhs)
            &&& text == #[trigger] dot_text(g, d, idom, lhs)
        }
}

/// Appends the members of `row`, each after a blank.
fn append_members(row: &Vec<usize>, out: &mut String)
    ensures
        final(out)@ == old(out)@ + members_text(row@, row@.len()),
{
    let mut k: usize = 0;
    assert(out@ =~= old(out)@ + members_text(row@, 0));
    while k < row.len()
        invariant
            k <= row@.len(),
            out@ == old(out)@ + members_text(row@, k as nat),
        decreases row@.len() - k,
    {
        if row[k] == 1 {
            out.append(" ");
            append_index(out, k);
        }
        assert(out@ =~= old(out)@ + members_text(row@, (k + 1) as nat));
        k = k + 1;
    }
}

/// Appends the texts of `cmds`, separated by a backslash and `n`.
fn append_commands<C: Describe>(cmds: &Vec<C>, out: &mut String)
    ensures
        final(out)@ == old(out)@ + commands_text(cmds@, cmds@.len()),
{
    let mut k: usize = 0;
    assert(out@ =~= old(out)@ + commands_text(cmds@, 0));
    while k < cmds.len()
        invariant
            k <= cmds@.len(),
            out@ == old(out)@ + commands_text(cmds@, k as nat),
        decreases cmds@.len() - k,
    {
        if k > 0 {
            out.append("\\n");
        }
        cmds[k].describe(out);
        assert(out@ =~= old(out)@ + commands_text(cmds@, (k + 1) as nat));
        k = k + 1;
    }
}

/// Appends the start of the box of block `i`.
fn append_head(i: usize, flag: usize, out: &mut String)
    ensures
        final(out)@ == old(out)@ + box_head(i, flag),
{
    append_index(out, i);
    out.append(" [shape=box,label=\"");
    if flag == 1 {
        out.append("header");
    }
    out.append("\\n");
    append_index(out, i);
    assert(out@ =~= old(out)@ + box_head(i, flag));
}

/// Appends the middle of a box.
fn append_middle(label: &Option<String>, row: &Vec<usize>, out: &mut String)
    ensures
        final(out)@ == old(out)@ + box_middle(label_text(*label), row@),
{
    out.append("\\nlabel=");
    match label {
        Some(l) => out.append(l.as_str()),
        None => {},
    }
    out.append("\\ndoms{");
    append_members(row, out);
    out.append("}");
    assert(out@ =~= old(out)@ + box_middle(label_text(*label), row@));
}

/// Appends the end of a box.
fn append_tail<C: Describe>(idom: usize, cmds: &Vec<C>, out: &mut String)
    ensures
        final(out)@ == old(out)@ + box_tail(idom, cmds@),
{
    out.append("\\nidom=");
    append_index(out, idom);
    out.append("\\n");
    append_commands(cmds, out);
    out.append("\"];\n");
    assert(out@ =~= old(out)@ + box_tail(idom, cmds@));
}

impl<CmdType: Describe> Graph<CmdType> {
    /// Appends the arrows of block `i`.
    fn append_edges(&self, i: usize, out: &mut String)
        requires
            i < self@.blocks.len(),
        ensures
            final(out)@ == old(out)@ + edges_text(self@, i, self@.blocks[i as int].succs.len()),
    {
        let mut k: usize = 0;
        assert(out@ =~= old(out)@ + edges_text(self@, i, 0));
        while k < self.nodes[i].neighbors.len()
            invariant
                i < self@.blocks.len(),
                k <= self@.blocks[i as int].succs.len(),
                out@ == old(out)@ + edges_text(self@, i, k as nat),
            decreases self@.blocks[i as int].succs.len() - k,
        {
            let s = self.nodes[i].neighbors[k];
            assert(s == self@.blocks[i as int].succs[k as int]);
            append_index(out, i);
            out.append("->");
            append_index(out, s);
            out.append("[label=\"");
            match self.edge_kind(i, s) {
                Some(EdgeKind::Goto) => out.append("goto"),
                Some(EdgeKind::IfGoto) => out.append("if-goto"),
                None => {},
            }
            out.append("\"];\n");
            assert(out@ =~= old(out)@ + edges_text(self@, i, (k + 1) as nat));
            k = k + 1;
        }
    }

    /// Appends the box and the arrows of block `i`.
    fn append_node(
        &self,
        d: &Vec<Vec<usize>>,
        idom: &Vec<usize>,
        lhs: &Vec<usize>,
        i: usize,
        out: &mut String,
    )
        requires
            i < self@.blocks.len(),
            is_square(d@, self@.blocks.len() as int),
            idom@.len() == self@.blocks.len(),
            lhs@.len() == self@.blocks.len(),
        ensures
            final(out)@ == old(out)@ + node_text(self@, d@, idom@, lhs@, i),
    {
        if self.nodes[i].neighbors.len() == 0 && self.pred(i).len() == 0 {
            assert(out@ =~= old(out)@ + node_text(self@, d@, idom@, lhs@, i));
            return ;
        }
        append_head(i, lhs[i], out);
        append_middle(&self.nodes[i].label, &d[i], out);
        append_tail(idom[i], &self.nodes[i].commands, out);
        self.append_edges(i, out);
        assert(out@ =~= old(out)@ + node_text(self@, d@, idom@, lhs@, i));
    }

    /// The drawing of the graph as Graphviz text.
    pub fn write_graphviz(&self) -> (r: String)
        requires
            self.wf(),
            self@.blocks.len() > 0,
        ensures
            is_drawing(self@, r@),
    {
        let d = self.dominate_nodes();
        let id = self.idom_nodes(&d);
        let lhs = self.loop_headers(&d);
        let mut out = String::from_str("digraph G {\n");
        let n = self.nodes.len();
        let mut i: usize = 0;
        assert(out@ =~= "digraph G {\n"@ + nodes_text(self@, d@, id@, lhs@, 0));
        while i < n
            invariant
                i <= n,
                n == self@.blocks.len(),
                is_square(d@, n as int),
                id@.len() == n,
                lhs@.len() == n,
                out@ == "digraph G {\n"@ + nodes_text(self@, d@, id@, lhs@, i as nat),
            decreases n - i,
        {
            self.append_node(&d, &id, &lhs, i, &mut out);
            assert(out@ =~= "digraph G {\n"@ + nodes_text(self@, d@, id@, lhs@, (i + 1) as nat));
            i = i + 1;
        }
        out.append("}\n");
        proof {
            assert(is_header_flags(self@, d@, lhs@));
            assert(out@ == dot_text(self@, d@, id@, lhs@));
        }
        out
    }
}

} // verus!
