use decompiler::graph::Graph;
use decompiler::parser::{parse_program, VmCommand};
use decompiler::pipeline::to_untyped_ir;
use decompiler::structure::StructureError;
use decompiler::untyped_ir::UnTypedIR;

fn statements(source: &str) -> Vec<UnTypedIR> {
    let cmds: Vec<VmCommand> = parse_program(source).unwrap();
    let vm = Graph::build(cmds);
    let graph = Graph::lift(&vm).unwrap();
    graph.try_reconstruct_code().unwrap()
}

fn text(source: &str) -> String {
    let mut out = String::new();
    for s in statements(source) {
        out.push_str(&s.to_text());
        out.push('\n');
    }
    out
}

#[test]
fn straight_line() {
    let out = text("push constant 1\npush constant 2\nadd\npop local 0\n");
    assert_eq!(out, "let LCL_0 = 2 + 1;\n");
}

#[test]
fn simple_if() {
    let out = text(
        "push constant 1\nnot\nif-goto END\npush constant 7\npop local 0\nlabel END\n",
    );
    assert_eq!(out, "if (~(1)) {\n} else {\nlet LCL_0 = 7;\n}\n\n");
}

#[test]
fn while_loop() {
    let src = "label L\npush local 0\npush constant 10\nlt\nif-goto END\n\
               push local 0\npush constant 1\nadd\npop local 0\ngoto L\nlabel END\n";
    let out = text(src);
    assert_eq!(out, "while (10 > LCL_0) {\nlet LCL_0 = 1 + LCL_0;\n}\n\n");
}

#[test]
fn nested_if_inside_while() {
    let src = "label L\npush local 0\nif-goto END\n\
               push local 1\nif-goto THEN\npush constant 5\npop local 2\ngoto JOIN\n\
               label THEN\npush constant 6\npop local 2\nlabel JOIN\n\
               goto L\nlabel END\n";
    let stmts = statements(src);
    assert_eq!(stmts.len(), 1);
    match &stmts[0] {
        UnTypedIR::While(_, body, _) => {
            assert_eq!(body.len(), 1);
            match &body[0] {
                UnTypedIR::If(_, then, other, after) => {
                    assert_eq!(then.len(), 1);
                    assert_eq!(then[0].to_text(), "let LCL_2 = 6;");
                    assert_eq!(other.len(), 1);
                    assert_eq!(other[0].to_text(), "let LCL_2 = 5;");
                    assert!(after.is_empty());
                }
                _ => panic!("no conditional in the loop"),
            }
        }
        _ => panic!("no loop"),
    }
}

#[test]
fn dead_block_pruning() {
    let src = "push constant 1\npop local 0\ngoto A\npush constant 2\npop local 1\n\
               label A\npush constant 3\npop local 2\n";
    let out = text(src);
    assert_eq!(out, "let LCL_0 = 1;\nlet LCL_2 = 3;\n");
}

#[test]
fn functions_are_rebuilt_one_by_one() {
    let src = "function Main.a 0\npush constant 1\nreturn\n\
               function Main.b 2\npush constant 2\nreturn\n";
    let irs = to_untyped_ir(parse_program(src).unwrap()).unwrap();
    assert_eq!(irs.len(), 2);
    assert_eq!(irs[0].to_text(), "function Main.a(...) {\n\nreturn(1);\n}\n");
    assert_eq!(irs[1].to_text(), "function Main.b(...) {\n\nreturn(2);\n}\n");
}

#[test]
fn arms_that_leave_at_different_blocks_are_refused() {
    let src = "label L\npush local 0\nif-goto END\n\
               push local 1\nif-goto SKIP\npush constant 5\npop local 2\nlabel SKIP\n\
               goto L\nlabel END\n";
    let cmds: Vec<VmCommand> = parse_program(src).unwrap();
    let graph = Graph::lift(&Graph::build(cmds)).unwrap();
    assert_eq!(graph.try_reconstruct_code().err(), Some(StructureError::Diverge(0, 3)));
}
