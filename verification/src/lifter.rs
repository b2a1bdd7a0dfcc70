//! Lifting: the straight-line commands of one block become expression and
//! statement trees by simulating the operand stack.

use vstd::prelude::*;
use vstd::string::*;
use crate::graph::{label_text, BasicBlock, EdgeLabel, Graph, GraphModel};
use crate::parser::{segment_name, Segment, VmCommand};
use crate::text::{append_int, int_text};
use crate::untyped_ir::{ir_view, irs_view, Ir, UnTypedIR};

verus! {

/// The operand stack and the statements emitted so far.
pub struct LiftState {
    pub stack: Seq<Ir>,
    pub out: Seq<Ir>,
}

/// Why a command list cannot be lifted, with the position of the command.
#[derive(Debug, Clone, Copy, PartialEq, Eq, Structural)]
pub enum LiftError {
    /// A label, jump or function header stands among the commands.
    ControlFlow(usize),
    /// The command takes more operands than the stack holds.
    StackUnderflow(usize),
}

/// The name of the variable that stands for a cell of a segment.
pub open spec fn var_name(seg: Segment, i: int) -> Seq<char> {
    segment_name(seg) + seq!['_'] + int_text(i)
}

/// The variable that a `push` reads or a `pop` writes.
pub open spec fn cell(seg: Segment, i: int) -> Ir {
    if seg == Segment::CONST {
        Ir::Var(int_text(i))
    } else {
        Ir::Var(var_name(seg, i))
    }
}

/// Whether the command shapes control flow and so has no place in a block.
pub open spec fn is_control(c: VmCommand) -> bool {
    c is Label || c is Goto || c is IfGoto || c is FunDef
}

/// How many operands the command takes from the stack.
pub open spec fn operands(c: VmCommand) -> nat {
    match c {
        VmCommand::Push(_, _) => 0,
        VmCommand::Pop(_, _) => 1,
        VmCommand::Neg => 1,
        VmCommand::Not => 1,
        VmCommand::Return => 1,
        VmCommand::Add => 2,
        VmCommand::Sub => 2,
        VmCommand::Eq => 2,
        VmCommand::Gt => 2,
        VmCommand::Lt => 2,
        VmCommand::And => 2,
        VmCommand::Or => 2,
        VmCommand::Call(_, n) => if n > 0 {
            n as nat
        } else {
            0
        },
        _ => 0,
    }
}

/// The binary node with the operator `op` over `first` and `second`.
pub open spec fn binary(op: char, first: Ir, second: Ir) -> Ir {
    Ir::Binary(seq![op], Box::new(first), Box::new(second))
}

/// The effect of one command that is no control command and finds its
/// operands on the stack. A `push` puts a constant or a variable on the
/// stack; `pop` and `return` take the top and emit a statement; an operator
/// puts a node over its operands in their place, the top operand first,
/// but for `sub`, where the lower operand comes first; `lt` gives `>` and
/// `gt` gives `<`; a call takes its arguments with the one pushed first as
/// the first.
pub open spec fn lift_step(st: LiftState, c: VmCommand) -> LiftState {
    let n = st.stack.len() as int;
    let top = st.stack[n - 1];
    let below = st.stack[n - 2];
    let rest1 = st.stack.take(n - 1);
    let rest2 = st.stack.take(n - 2);
    match c {
        VmCommand::Push(seg, i) => LiftState {
            stack: st.stack.push(
                if seg == Segment::CONST {
                    Ir::ConstInt(i as int)
                } else {
                    Ir::Var(var_name(seg, i as int))
                },
            ),
            out: st.out,
        },
        VmCommand::Pop(seg, i) => LiftState {
            stack: rest1,
            out: st.out.push(Ir::Assign(Box::new(cell(seg, i as int)), Box::new(top))),
        },
        VmCommand::Return => LiftState { stack: rest1, out: st.out.push(Ir::Return(Box::new(top))) },
        VmCommand::Neg => LiftState {
            stack: rest1.push(Ir::Unary(seq!['-'], Box::new(top))),
            out: st.out,
        },
        VmCommand::Not => LiftState {
            stack: rest1.push(Ir::Unary(seq!['~'], Box::new(top))),
            out: st.out,
        },
        VmCommand::Add => LiftState { stack: rest2.push(binary('+', top, below)), out: st.out },
        VmCommand::Sub => LiftState { stack: rest2.push(binary('-', below, top)), out: st.out },
        VmCommand::Eq => LiftState { stack: rest2.push(binary('=', top, below)), out: st.out },
        VmCommand::Gt => LiftState { stack: rest2.push(binary('<', top, below)), out: st.out },
        VmCommand::Lt => LiftState { stack: rest2.push(binary('>', top, below)), out: st.out },
        VmCommand::And => LiftState { stack: rest2.push(binary('&', top, below)), out: st.out },
        VmCommand::Or => LiftState { stack: rest2.push(binary('|', top, below)), out: st.out },
        VmCommand::Call(f, k) => {
            let m = n - operands(c);
            LiftState {
                stack: st.stack.take(m).push(Ir::Call(f@, st.stack.subrange(m, n))),
                out: st.out,
            }
        },
        _ => st,
    }
}

/// The state after all of `cmds`, or the first fault on the way.
pub open spec fn lift_run(cmds: Seq<VmCommand>) -> Result<LiftState, LiftError>
    decreases cmds.len(),
{
    if cmds.len() == 0 {
        Ok(LiftState { stack: Seq::empty(), out: Seq::empty() })
    } else {
        match lift_run(cmds.drop_last()) {
            Err(e) => Err(e),
            Ok(st) => {
                let c = cmds.last();
                let at = (cmds.len() - 1) as usize;
                if is_control(c) {
                    Err(LiftError::ControlFlow(at))
                } else if operands(c) > st.stack.len() {
                    Err(LiftError::StackUnderflow(at))
                } else {
                    Ok(lift_step(st, c))
                }
            },
        }
    }
}

/// The statements of a block: those emitted on the way, then the expression
/// left on top of the stack, if there is one.
pub open spec fn lifted(cmds: Seq<VmCommand>) -> Result<Seq<Ir>, LiftError> {
    match lift_run(cmds) {
        Err(e) => Err(e),
        Ok(st) => Ok(
            if st.stack.len() > 0 {
                st.out.push(st.stack.last())
            } else {
                st.out
            },
        ),
    }
}

/// A command list that lifts holds no label, jump or function header.
pub proof fn lemma_lifted_has_no_control(cmds: Seq<VmCommand>)
    requires
        lifted(cmds) is Ok,
    ensures
        forall|i: int| 0 <= i < cmds.len() ==> !is_control(#[trigger] cmds[i]),
    decreases cmds.len(),
{
    if cmds.len() > 0 {
        lemma_lifted_has_no_control(cmds.drop_last());
        assert forall|i: int| 0 <= i < cmds.len() implies !is_control(#[trigger] cmds[i]) by {
            if i < cmds.len() - 1 {
                assert(cmds[i] == cmds.drop_last()[i]);
            }
        }
    }
}

/// A fault in a prefix is the fault of the whole list.
pub proof fn lemma_fault_stays(cmds: Seq<VmCommand>, k: int)
    requires
        0 <= k <= cmds.len(),
        lift_run(cmds.take(k)) is Err,
    ensures
        lift_run(cmds) == lift_run(cmds.take(k)),
    decreases cmds.len(),
{
    if k == cmds.len() {
        assert(cmds.take(k) =~= cmds);
    } else {
        assert(cmds.drop_last().take(k) =~= cmds.take(k));
        lemma_fault_stays(cmds.drop_last(), k);
    }
}

impl VmCommand {
    /// Whether the command shapes control flow.
    pub fn is_control(&self) -> (r: bool)
        ensures
            r == is_control(*self),
    {
        match self {
            VmCommand::Label(_) => true,
            VmCommand::Goto(_) => true,
            VmCommand::IfGoto(_) => true,
            VmCommand::FunDef(_, _) => true,
            _ => false,
        }
    }

    /// How many operands the command takes from the stack.
    pub fn operands(&self) -> (r: usize)
        ensures
            r == operands(*self),
    {
        match self {
            VmCommand::Pop(_, _) => 1,
            VmCommand::Neg => 1,
            VmCommand::Not => 1,
            VmCommand::Return => 1,
            VmCommand::Add => 2,
            VmCommand::Sub => 2,
            VmCommand::Eq => 2,
            VmCommand::Gt => 2,
            VmCommand::Lt => 2,
            VmCommand::And => 2,
            VmCommand::Or => 2,
            VmCommand::Call(_, n) => if *n > 0 {
                *n as usize
            } else {
                0
            },
            _ => 0,
        }
    }
}

/// Puts `x` on top of `v`.
fn push_ir(v: &mut Vec<UnTypedIR>, x: UnTypedIR)
    ensures
        final(v)@ == old(v)@.push(x),
        irs_view(final(v)@) == irs_view(old(v)@).push(x@),
{
    v.push(x);
    assert(irs_view(v@) =~= irs_view(old(v)@).push(x@));
}

/// Takes the top of `v`.
fn pop_ir(v: &mut Vec<UnTypedIR>) -> (x: UnTypedIR)
    requires
        old(v)@.len() > 0,
    ensures
        final(v)@ == old(v)@.drop_last(),
        x == old(v)@.last(),
        irs_view(final(v)@) == irs_view(old(v)@).take(old(v)@.len() - 1),
        x@ == irs_view(old(v)@)[old(v)@.len() - 1],
{
    let x = v.pop().unwrap();
    assert(irs_view(v@) =~= irs_view(old(v)@).take(old(v)@.len() - 1));
    x
}

/// The variable node for a cell of a segment.
fn cell_var(seg: Segment, i: i32) -> (r: UnTypedIR)
    requires
        seg != Segment::CONST,
    ensures
        r@ == Ir::Var(var_name(seg, i as int)),
{
    proof {
        reveal_strlit("_");
    }
    let mut name = String::from_str(seg.name());
    name.append("_");
    append_int(&mut name, i);
    assert(name@ =~= var_name(seg, i as int));
    UnTypedIR::Var(name)
}

/// The variable node that a `pop` assigns to.
fn target_var(seg: Segment, i: i32) -> (r: UnTypedIR)
    ensures
        r@ == cell(seg, i as int),
{
    if seg == Segment::CONST {
        let mut name = String::new();
        append_int(&mut name, i);
        assert(name@ =~= int_text(i as int));
        UnTypedIR::Var(name)
    } else {
        cell_var(seg, i)
    }
}

/// Replaces the two topmost operands by a binary node; `swap` puts the lower
/// operand first.
fn fold_binary(stack: &mut Vec<UnTypedIR>, op: &str, swap: bool)
    requires
        old(stack)@.len() >= 2,
        op@.len() == 1,
    ensures
        ({
            let s = irs_view(old(stack)@);
            let n = s.len() as int;
            irs_view(final(stack)@) == s.take(n - 2).push(
                if swap {
                    binary(op@[0], s[n - 2], s[n - 1])
                } else {
                    binary(op@[0], s[n - 1], s[n - 2])
                },
            )
        }),
{
    let e1 = pop_ir(stack);
    let e2 = pop_ir(stack);
    let name = String::from_str(op);
    assert(name@ =~= seq![op@[0]]);
    let node = if swap {
        UnTypedIR::Binary(name, Box::new(e2), Box::new(e1))
    } else {
        UnTypedIR::Binary(name, Box::new(e1), Box::new(e2))
    };
    push_ir(stack, node);
    proof {
        let s = irs_view(old(stack)@);
        let n = s.len() as int;
        assert(s.take(n - 1).take(n - 2) =~= s.take(n - 2));
    }
}

/// Replaces the topmost operand by a unary node.
fn fold_unary(stack: &mut Vec<UnTypedIR>, op: &str)
    requires
        old(stack)@.len() >= 1,
        op@.len() == 1,
    ensures
        ({
            let s = irs_view(old(stack)@);
            let n = s.len() as int;
            irs_view(final(stack)@) == s.take(n - 1).push(Ir::Unary(seq![op@[0]], Box::new(s[n - 1])))
        }),
{
    let e = pop_ir(stack);
    let name = String::from_str(op);
    assert(name@ =~= seq![op@[0]]);
    push_ir(stack, UnTypedIR::Unary(name, Box::new(e)));
}

/// Replaces the `k` topmost operands by a call of `f` on them, the lowest
/// operand being the first argument.
fn fold_call(stack: &mut Vec<UnTypedIR>, f: &String, k: usize)
    requires
        k <= old(stack)@.len(),
    ensures
        ({
            let s = irs_view(old(stack)@);
            let n = s.len() as int;
            irs_view(final(stack)@) == s.take(n - k).push(Ir::Call(f@, s.subrange(n - k, n)))
        }),
{
    let n = stack.len();
    let args = stack.split_off(n - k);
    proof {
        let s = irs_view(old(stack)@);
        assert(irs_view(stack@) =~= s.take(n - k));
        assert(irs_view(args@) =~= s.subrange(n - k, n as int));
    }
    push_ir(stack, UnTypedIR::Call(f.clone(), args));
}

/// Lifts the commands of one block, or reports the first command that
/// cannot be lifted.
pub fn lift_commands(cmds: &[VmCommand]) -> (r: Result<Vec<UnTypedIR>, LiftError>)
    ensures
        match lifted(cmds@) {
            Ok(irs) => r is Ok && irs_view(r->Ok_0@) == irs,
            Err(e) => r == Err::<Vec<UnTypedIR>, LiftError>(e),
        },
{
    let mut stack: Vec<UnTypedIR> = Vec::new();
    let mut result: Vec<UnTypedIR> = Vec::new();
    let mut k: usize = 0;
    proof {
        reveal_strlit("-");
        reveal_strlit("~");
        reveal_strlit("+");
        reveal_strlit("=");
        reveal_strlit("<");
        reveal_strlit(">");
        reveal_strlit("&");
        reveal_strlit("|");
        assert(irs_view(stack@) =~= Seq::empty());
        assert(irs_view(result@) =~= Seq::empty());
        assert(cmds@.take(0) =~= Seq::empty());
    }
    while k < cmds.len()
        invariant
            k <= cmds@.len(),
            lift_run(cmds@.take(k as int)) == Ok::<LiftState, LiftError>(
                LiftState { stack: irs_view(stack@), out: irs_view(result@) },
            ),
            "-"@ == seq!['-'],
            "~"@ == seq!['~'],
            "+"@ == seq!['+'],
            "="@ == seq!['='],
            "<"@ == seq!['<'],
            ">"@ == seq!['>'],
            "&"@ == seq!['&'],
            "|"@ == seq!['|'],
        decreases cmds@.len() - k,
    {
        let ghost prefix = cmds@.take(k as int + 1);
        proof {
            assert(prefix.drop_last() =~= cmds@.take(k as int));
            assert(prefix.last() == cmds@[k as int]);
        }
        let ghost before = LiftState { stack: irs_view(stack@), out: irs_view(result@) };
        let c = &cmds[k];
        if c.is_control() {
            proof {
                lemma_fault_stays(cmds@, k as int + 1);
            }
            return Err(LiftError::ControlFlow(k));
        }
        let want = c.operands();
        if stack.len() < want {
            proof {
                lemma_fault_stays(cmds@, k as int + 1);
            }
            return Err(LiftError::StackUnderflow(k));
        }
        match c {
            VmCommand::Push(seg, i) => {
                if *seg == Segment::CONST {
                    push_ir(&mut stack, UnTypedIR::ConstInt(*i));
                } else {
                    push_ir(&mut stack, cell_var(*seg, *i));
                }
            },
            VmCommand::Pop(seg, i) => {
                let e = pop_ir(&mut stack);
                push_ir(&mut result, UnTypedIR::Assign(Box::new(target_var(*seg, *i)), Box::new(e)));
            },
            VmCommand::Return => {
                let e = pop_ir(&mut stack);
                push_ir(&mut result, UnTypedIR::Return(Box::new(e)));
            },
            VmCommand::Neg => {
                fold_unary(&mut stack, "-");
            },
            VmCommand::Not => {
                fold_unary(&mut stack, "~");
            },
            VmCommand::Add => {
                fold_binary(&mut stack, "+", false);
            },
            VmCommand::Sub => {
                fold_binary(&mut stack, "-", true);
            },
            VmCommand::Eq => {
                fold_binary(&mut stack, "=", false);
            },
            VmCommand::Gt => {
                fold_binary(&mut stack, "<", false);
            },
            VmCommand::Lt => {
                fold_binary(&mut stack, ">", false);
            },
            VmCommand::And => {
                fold_binary(&mut stack, "&", false);
            },
            VmCommand::Or => {
                fold_binary(&mut stack, "|", false);
            },
            VmCommand::Call(f, _) => {
                fold_call(&mut stack, f, want);
            },
            _ => {},
        }
        proof {
            assert(!is_control(*c));
            assert(operands(*c) <= before.stack.len());
            assert(irs_view(stack@) == lift_step(before, *c).stack);
            assert(irs_view(result@) == lift_step(before, *c).out);
        }
        k = k + 1;
    }
    proof {
        assert(cmds@.take(k as int) =~= cmds@);
    }
    if stack.len() > 0 {
        let e = pop_ir(&mut stack);
        push_ir(&mut result, e);
    }
    Ok(result)
}

/// Lifts the commands of one block that holds no control command and never
/// takes an operand from an empty stack.
pub fn get_untyped_ir_from_vm_commands(cmds: &[VmCommand]) -> (r: Vec<UnTypedIR>)
    requires
        lifted(cmds@) is Ok,
    ensures
        irs_view(r@) == lifted(cmds@)->Ok_0,
{
    match lift_commands(cmds) {
        Ok(irs) => irs,
        Err(_) => Vec::new(),
    }
}

/// A block of a graph that cannot be lifted, and why.
#[derive(Debug, Clone, Copy, PartialEq, Eq, Structural)]
pub struct BlockLiftError {
    pub block: usize,
    pub fault: LiftError,
}

/// Whether `g` is `vm` with the commands of every block lifted.
pub open spec fn lifts_to(vm: GraphModel<VmCommand>, g: GraphModel<UnTypedIR>) -> bool {
    &&& g.kinds == vm.kinds
    &&& g.blocks.len() == vm.blocks.len()
    &&& forall|i: int|
        0 <= i < g.blocks.len() ==> {
            &&& (#[trigger] g.blocks[i]).succs == vm.blocks[i].succs
            &&& g.blocks[i].label == vm.blocks[i].label
            &&& lifted(vm.blocks[i].commands) == Ok::<Seq<Ir>, LiftError>(
                irs_view(g.blocks[i].commands),
            )
        }
}

/// Whether block `i` is the first of `vm` that cannot be lifted.
pub open spec fn first_fault(vm: GraphModel<VmCommand>, i: int) -> bool {
    &&& 0 <= i < vm.blocks.len()
    &&& lifted(vm.blocks[i].commands) is Err
    &&& forall|j: int| 0 <= j < i ==> lifted(#[trigger] vm.blocks[j].commands) is Ok
}

/// A copy of a list of block positions.
fn copy_indices(v: &Vec<usize>) -> (r: Vec<usize>)
    ensures
        r@ == v@,
{
    let mut r: Vec<usize> = Vec::new();
    let mut i: usize = 0;
    while i < v.len()
        invariant
            i <= v@.len(),
            r@ == v@.take(i as int),
        decreases v@.len() - i,
    {
        r.push(v[i]);
        assert(r@ =~= v@.take(i as int + 1));
        i = i + 1;
    }
    assert(v@.take(i as int) =~= v@);
    r
}

/// A copy of a list of edge labels.
fn copy_labels(v: &Vec<EdgeLabel>) -> (r: Vec<EdgeLabel>)
    ensures
        r@ == v@,
{
    let mut r: Vec<EdgeLabel> = Vec::new();
    let mut i: usize = 0;
    while i < v.len()
        invariant
            i <= v@.len(),
            r@ == v@.take(i as int),
        decreases v@.len() - i,
    {
        r.push(v[i]);
        assert(r@ =~= v@.take(i as int + 1));
        i = i + 1;
    }
    assert(v@.take(i as int) =~= v@);
    r
}

/// A copy of an optional label.
fn copy_label(l: &Option<String>) -> (r: Option<String>)
    ensures
        label_text(r) == label_text(*l),
{
    match l {
        Some(s) => Some(s.clone()),
        None => None,
    }
}

impl Graph<UnTypedIR> {
    /// The graph `vm` with the commands of every block lifted, or the first
    /// block that cannot be lifted.
    pub fn lift(vm: &Graph<VmCommand>) -> (r: Result<Graph<UnTypedIR>, BlockLiftError>)
        ensures
            match r {
                Ok(g) => lifts_to(vm@, g@) && (vm.wf() ==> g.wf()),
                Err(e) => first_fault(vm@, e.block as int) && lifted(
                    vm@.blocks[e.block as int].commands,
                ) == Err::<Seq<Ir>, LiftError>(e.fault),
            },
    {
        let mut graph: Graph<UnTypedIR> = Graph {
            nodes: Vec::new(),
            edge_label: copy_labels(&vm.edge_label),
        };
        let mut i: usize = 0;
        while i < vm.nodes.len()
            invariant
                i <= vm.nodes@.len(),
                graph.nodes@.len() == i,
                graph.edge_label@ == vm.edge_label@,
                forall|k: int|
                    0 <= k < i ==> {
                        &&& (#[trigger] graph.nodes@[k]).index == vm.nodes@[k].index
                        &&& graph.nodes@[k]@.succs == vm.nodes@[k]@.succs
                        &&& graph.nodes@[k]@.label == vm.nodes@[k]@.label
                        &&& lifted(vm.nodes@[k]@.commands) == Ok::<Seq<Ir>, LiftError>(
                            irs_view(graph.nodes@[k]@.commands),
                        )
                    },
            decreases vm.nodes@.len() - i,
        {
            let commands = match lift_commands(vm.nodes[i].commands.as_slice()) {
                Ok(irs) => irs,
                Err(fault) => {
                    proof {
                        assert forall|j: int| 0 <= j < i implies lifted(
                            #[trigger] vm@.blocks[j].commands,
                        ) is Ok by {
                            assert(graph.nodes@[j].index == vm.nodes@[j].index);
                        }
                    }
                    return Err(BlockLiftError { block: i, fault });
                },
            };
            graph.nodes.push(
                BasicBlock {
                    index: vm.nodes[i].index,
                    neighbors: copy_indices(&vm.nodes[i].neighbors),
                    label: copy_label(&vm.nodes[i].label),
                    commands,
                },
            );
            i = i + 1;
        }
        proof {
            assert forall|k: int| 0 <= k < graph@.blocks.len() implies {
                &&& (#[trigger] graph@.blocks[k]).succs == vm@.blocks[k].succs
                &&& graph@.blocks[k].label == vm@.blocks[k].label
                &&& lifted(vm@.blocks[k].commands) == Ok::<Seq<Ir>, LiftError>(
                    irs_view(graph@.blocks[k].commands),
                )
            } by {
                assert(graph.nodes@[k].index == vm.nodes@[k].index);
            }
            if vm.wf() {
                assert forall|a: int, b: int|
                    0 <= a < graph@.blocks.len() && 0 <= b < graph@.blocks[a].succs.len() implies (
                #[trigger] graph@.blocks[a].succs[b]) < graph@.blocks.len() by {
                    assert(graph@.blocks[a].succs == vm@.blocks[a].succs);
                    assert(vm@.blocks[a].succs[b] < vm@.blocks.len());
                }
                assert forall|k: int| 0 <= k < graph.nodes@.len() implies (#[trigger] graph.nodes@[k]).index
                    == k by {
                    assert(vm.nodes@[k].index == k);
                }
            }
        }
        Ok(graph)
    }
}

} // verus!
