//! From a command stream to rebuilt functions: the stream is cut at its
//! function headers, and each function goes through graph construction,
//! lifting and structural recovery.

use vstd::prelude::*;
use crate::builder::built;
use crate::graph::{Graph, GraphModel};
use crate::lifter::{first_fault, lifted, lifts_to, BlockLiftError, LiftError};
use crate::parser::VmCommand;
use crate::structure::{recovered, StructureError};
use crate::untyped_ir::{irs_view, Ir, UnTypedIR};

verus! {

/// The commands of one function with the name and the count of locals
/// from its header. Commands before the first header have no name.
pub struct VmFunction {
    pub name: Option<String>,
    pub locals: i32,
    pub commands: Vec<VmCommand>,
}

/// The model of a function.
pub struct FunctionModel {
    pub name: Option<String>,
    pub locals: i32,
    pub commands: Seq<VmCommand>,
}

impl View for VmFunction {
    type V = FunctionModel;

    open spec fn view(&self) -> FunctionModel {
        FunctionModel { name: self.name, locals: self.locals, commands: self.commands@ }
    }
}

/// The functions cut off so far and the one that is being filled.
pub struct SplitState {
    pub done: Seq<FunctionModel>,
    pub current: FunctionModel,
}

impl SplitState {
    /// The functions cut off so far, with the current one where it holds a
    /// command.
    pub open spec fn flushed(self) -> Seq<FunctionModel> {
        if self.current.commands.len() > 0 {
            self.done.push(self.current)
        } else {
            self.done
        }
    }
}

/// The effect of one command: a header closes the current function, if it
/// holds a command, and opens the next; any other command joins the
/// current function.
pub open spec fn split_step(st: SplitState, c: VmCommand) -> SplitState {
    match c {
        VmCommand::FunDef(name, locals) => SplitState {
            done: st.flushed(),
            current: FunctionModel { name: Some(name), locals, commands: Seq::empty() },
        },
        other => SplitState {
            done: st.done,
            current: FunctionModel { commands: st.current.commands.push(other), ..st.current },
        },
    }
}

/// The state after all of `cmds`.
pub open spec fn split_run(cmds: Seq<VmCommand>) -> SplitState
    decreases cmds.len(),
{
    if cmds.len() == 0 {
        SplitState {
            done: Seq::empty(),
            current: FunctionModel { name: None, locals: 0, commands: Seq::empty() },
        }
    } else {
        split_step(split_run(cmds.drop_last()), cmds.last())
    }
}

/// The functions of a command stream.
pub open spec fn functions_of(cmds: Seq<VmCommand>) -> Seq<FunctionModel> {
    split_run(cmds).flushed()
}

/// The models of a list of functions.
pub open spec fn functions_view(l: Seq<VmFunction>) -> Seq<FunctionModel> {
    Seq::new(l.len(), |i: int| l[i]@)
}

/// Why a function cannot be rebuilt.
#[derive(Debug, Clone, Copy, PartialEq, Eq, Structural)]
pub enum DecompileError {
    /// A block of its graph cannot be lifted.
    Lift(BlockLiftError),
    /// Its graph cannot be folded.
    Structure(StructureError),
}

/// A function of a stream that cannot be rebuilt, and why. Functions count
/// from zero.
#[derive(Debug, Clone, Copy, PartialEq, Eq, Structural)]
pub struct FunctionError {
    pub function: usize,
    pub fault: DecompileError,
}

/// The text of an optional name: empty where there is none.
pub open spec fn name_text(name: Option<String>) -> Seq<char> {
    match name {
        Some(s) => s@,
        None => Seq::empty(),
    }
}

/// Whether `r` is what rebuilding the function `f` gives: the fault of the
/// first block of its graph that cannot be lifted; else the fault of
/// folding the lifted graph; else the function with the folded statements
/// as its body.
pub open spec fn rebuilds_to(f: FunctionModel, r: Result<Ir, DecompileError>) -> bool {
    let vm = built(f.commands);
    if exists|i: int| first_fault(vm, i) {
        exists|i: int|
            #[trigger] first_fault(vm, i) && r == Err::<Ir, DecompileError>(
                DecompileError::Lift(
                    BlockLiftError { block: i as usize, fault: lifted(vm.blocks[i].commands)->Err_0 },
                ),
            )
    } else {
        exists|g: GraphModel<UnTypedIR>, body: Result<Seq<Ir>, StructureError>|
            #![trigger lifts_to(vm, g), recovered(g, body)]
            lifts_to(vm, g) && recovered(g, body) && r == match body {
                Ok(stmts) => Ok::<Ir, DecompileError>(Ir::FuncDef(name_text(f.name), stmts)),
                Err(e) => Err::<Ir, DecompileError>(DecompileError::Structure(e)),
            }
    }
}

/// Whether the function `f` can be rebuilt.
pub open spec fn rebuilds(f: FunctionModel) -> bool {
    exists|ir: Ir| rebuilds_to(f, Ok::<Ir, DecompileError>(ir))
}

/// Cuts a command stream into its functions.
pub fn split_functions(cmds: Vec<VmCommand>) -> (r: Vec<VmFunction>)
    ensures
        functions_view(r@) == functions_of(cmds@),
{
    let mut done: Vec<VmFunction> = Vec::new();
    let mut current = VmFunction { name: None, locals: 0, commands: Vec::new() };
    let mut k: usize = 0;
    assert(cmds@.take(0) =~= Seq::empty());
    assert(functions_view(done@) =~= Seq::empty());
    while k < cmds.len()
        invariant
            k <= cmds@.len(),
            functions_view(done@) == split_run(cmds@.take(k as int)).done,
            current@ == split_run(cmds@.take(k as int)).current,
        decreases cmds@.len() - k,
    {
        proof {
            assert(cmds@.take(k as int + 1).drop_last() =~= cmds@.take(k as int));
        }
        match &cmds[k] {
            VmCommand::FunDef(name, locals) => {
                let next = VmFunction { name: Some(name.clone()), locals: *locals, commands: Vec::new() };
                if current.commands.len() > 0 {
                    let ghost before = done@;
                    done.push(current);
                    assert(functions_view(done@) =~= functions_view(before).push(current@));
                }
                current = next;
            },
            other => {
                current.commands.push(other.clone());
            },
        }
        k = k + 1;
    }
    assert(cmds@.take(k as int) =~= cmds@);
    if current.commands.len() > 0 {
        let ghost before = done@;
        done.push(current);
        assert(functions_view(done@) =~= functions_view(before).push(current@));
    }
    done
}

/// Rebuilds one function: its graph is built, lifted and folded, and the
/// statements become the body of a function node.
pub fn decompile_function(f: VmFunction) -> (r: Result<UnTypedIR, DecompileError>)
    ensures
        rebuilds_to(
            f@,
            match r {
                Ok(ir) => Ok::<Ir, DecompileError>(ir@),
                Err(e) => Err::<Ir, DecompileError>(e),
            },
        ),
{
    let ghost model = f@;
    let name = match f.name {
        Some(s) => s,
        None => String::new(),
    };
    assert(name@ =~= name_text(model.name));
    let vm = Graph::build(f.commands);
    let graph = match Graph::lift(&vm) {
        Ok(g) => g,
        Err(e) => {
            proof {
                assert(first_fault(vm@, e.block as int));
                assert forall|i: int| first_fault(vm@, i) implies i == e.block by {
                    if i < e.block {
                        assert(lifted(vm@.blocks[i].commands) is Ok);
                    } else if i > e.block {
                        assert(lifted(vm@.blocks[e.block as int].commands) is Ok);
                    }
                }
            }
            return Err(DecompileError::Lift(e));
        },
    };
    proof {
        assert forall|i: int| !first_fault(vm@, i) by {
            if 0 <= i < vm@.blocks.len() {
                assert(graph@.blocks[i].succs == vm@.blocks[i].succs);
            }
        }
    }
    match graph.try_reconstruct_code() {
        Ok(stmts) => {
            proof {
                assert(recovered(graph@, Ok::<Seq<Ir>, StructureError>(irs_view(stmts@))));
            }
            Ok(UnTypedIR::FuncDef(name, stmts))
        },
        Err(e) => {
            proof {
                assert(recovered(graph@, Err::<Seq<Ir>, StructureError>(e)));
            }
            Err(DecompileError::Structure(e))
        },
    }
}

/// Rebuilds every function of a command stream, or reports the first
/// function that cannot be rebuilt.
pub fn to_untyped_ir(cmds: Vec<VmCommand>) -> (r: Result<Vec<UnTypedIR>, FunctionError>)
    ensures
        ({
            let fs = functions_of(cmds@);
            match r {
                Ok(irs) => irs@.len() == fs.len() && forall|i: int|
                    0 <= i < fs.len() ==> rebuilds_to(
                        fs[i],
                        Ok::<Ir, DecompileError>((#[trigger] irs@[i])@),
                    ),
                Err(e) => e.function < fs.len() && rebuilds_to(
                    fs[e.function as int],
                    Err::<Ir, DecompileError>(e.fault),
                ) && forall|i: int| 0 <= i < e.function ==> rebuilds(#[trigger] fs[i]),
            }
        }),
{
    let mut functions = split_functions(cmds);
    let ghost fs = functions_of(cmds@);
    let total = functions.len();
    let mut out: Vec<UnTypedIR> = Vec::new();
    let mut rest: Vec<VmFunction> = Vec::new();
    while functions.len() > 0
        invariant
            functions@.len() + rest@.len() == total,
            total == fs.len(),
            forall|i: int| 0 <= i < functions@.len() ==> (#[trigger] functions@[i])@ == fs[i],
            forall|i: int|
                0 <= i < rest@.len() ==> (#[trigger] rest@[i])@ == fs[total - 1 - i],
        decreases functions@.len(),
    {
        let f = functions.pop().unwrap();
        rest.push(f);
    }
    let mut k: usize = 0;
    while rest.len() > 0
        invariant
            k + rest@.len() == total,
            total == fs.len(),
            fs == functions_of(cmds@),
            out@.len() == k,
            forall|i: int|
                0 <= i < rest@.len() ==> (#[trigger] rest@[i])@ == fs[total - 1 - i],
            forall|i: int|
                0 <= i < k ==> rebuilds_to(fs[i], Ok::<Ir, DecompileError>((#[trigger] out@[i])@)),
        decreases rest@.len(),
    {
        let f = rest.pop().unwrap();
        assert(f@ == fs[k as int]);
        match decompile_function(f) {
            Ok(ir) => {
                out.push(ir);
            },
            Err(fault) => {
                proof {
                    assert forall|i: int| 0 <= i < k implies rebuilds(#[trigger] fs[i]) by {
                        assert(rebuilds_to(fs[i], Ok::<Ir, DecompileError>(out@[i]@)));
                    }
                }
                return Err(FunctionError { function: k, fault });
            },
        }
        k = k + 1;
    }
    Ok(out)
}

} // verus!
