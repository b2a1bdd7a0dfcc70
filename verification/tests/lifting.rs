use decompiler::lifter::{get_untyped_ir_from_vm_commands, lift_commands, LiftError};
use decompiler::parser::{Segment, VmCommand};
use decompiler::untyped_ir::UnTypedIR;

fn var(ir: &UnTypedIR) -> &str {
    match ir {
        UnTypedIR::Var(s) => s.as_str(),
        _ => panic!("not a variable"),
    }
}

#[test]
fn straight_line_assignment() {
    let cmds = vec![
        VmCommand::Push(Segment::CONST, 1),
        VmCommand::Push(Segment::CONST, 2),
        VmCommand::Add,
        VmCommand::Pop(Segment::LCL, 0),
    ];
    let irs = get_untyped_ir_from_vm_commands(&cmds);
    assert_eq!(irs.len(), 1);
    match &irs[0] {
        UnTypedIR::Assign(l, r) => {
            assert_eq!(var(l), "LCL_0");
            match &**r {
                UnTypedIR::Binary(op, a, b) => {
                    assert_eq!(op, "+");
                    assert!(matches!(**a, UnTypedIR::ConstInt(2)));
                    assert!(matches!(**b, UnTypedIR::ConstInt(1)));
                }
                _ => panic!("not a sum"),
            }
        }
        _ => panic!("not an assignment"),
    }
}

#[test]
fn underflow_gives_its_position() {
    let cmds = vec![VmCommand::Push(Segment::CONST, 1), VmCommand::Add];
    assert_eq!(lift_commands(&cmds).err(), Some(LiftError::StackUnderflow(1)));
}

#[test]
fn control_command_gives_its_position() {
    let cmds = vec![VmCommand::Push(Segment::CONST, 1), VmCommand::Label("L".to_string())];
    assert_eq!(lift_commands(&cmds).err(), Some(LiftError::ControlFlow(1)));
}
