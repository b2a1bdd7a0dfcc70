use decompiler::lifter::{get_untyped_ir_from_vm_commands, lift_commands};
use decompiler::parser::{Segment, VmCommand};
use decompiler::untyped_ir::UnTypedIR;

fn num(i: i32) -> UnTypedIR {
    UnTypedIR::ConstInt(i)
}

fn var(s: &str) -> UnTypedIR {
    UnTypedIR::Var(s.to_string())
}

fn call(f: &str, args: Vec<UnTypedIR>) -> UnTypedIR {
    UnTypedIR::Call(f.to_string(), args)
}

fn texts(cmds: Vec<VmCommand>) -> Vec<String> {
    get_untyped_ir_from_vm_commands(&cmds).iter().map(|s| s.to_text()).collect()
}

fn push(i: i32) -> VmCommand {
    VmCommand::Push(Segment::CONST, i)
}

#[test]
fn string_literal_folding() {
    let h = call("String.appendChar", vec![call("String.new", vec![num(1)]), num(72)]);
    let hi = call("String.appendChar", vec![h, num(105)]);
    match hi.reconstruct_const_string() {
        UnTypedIR::ConstString(s) => assert_eq!(s, "Hi"),
        _ => panic!("not folded"),
    }
}

#[test]
fn folding_takes_the_low_byte_of_the_code() {
    let h = call("String.appendChar", vec![call("String.new", vec![num(0)]), num(72 + 256)]);
    assert_eq!(h.reconstruct_const_string().to_text(), "\"H\"");
    let m = call("String.appendChar", vec![UnTypedIR::ConstString("a".to_string()), num(-159)]);
    assert_eq!(m.reconstruct_const_string().to_text(), "\"aa\"");
}

#[test]
fn folding_leaves_other_calls_alone() {
    let c = call("String.appendChar", vec![var("LCL_0"), num(72)]);
    assert_eq!(c.reconstruct_const_string().to_text(), "String.appendChar(LCL_0, 72)");
    let d = call("String.appendChar", vec![call("String.new", vec![var("x")]), num(72)]);
    assert_eq!(
        d.reconstruct_const_string().to_text(),
        "String.appendChar(String.new(x), 72)"
    );
    let e = call("String.appendChar", vec![UnTypedIR::ConstString("a".to_string()), var("c")]);
    assert_eq!(e.reconstruct_const_string().to_text(), "String.appendChar(\"a\", c)");
}

#[test]
fn folding_reaches_into_every_part() {
    let h = || call("String.appendChar", vec![call("String.new", vec![num(1)]), num(72)]);
    let at = UnTypedIR::ArrayOffset(Box::new(h()), Box::new(h()));
    assert_eq!(at.reconstruct_const_string().to_text(), "\"H\"[\"H\"]");
    let set = UnTypedIR::Assign(
        Box::new(UnTypedIR::ArrayOffset(Box::new(var("a")), Box::new(h()))),
        Box::new(num(1)),
    );
    assert_eq!(set.reconstruct_const_string().to_text(), "let a[\"H\"] = 1;");
    let f = UnTypedIR::FuncDef("f".to_string(), vec![UnTypedIR::Return(Box::new(h()))]);
    assert_eq!(f.reconstruct_const_string().to_text(), "function f(...) {\n\nreturn(\"H\");\n}\n");
}

#[test]
fn folding_reaches_into_statements() {
    let h = call("String.appendChar", vec![call("String.new", vec![num(1)]), num(72)]);
    let stmt = UnTypedIR::While(
        Box::new(var("c")),
        vec![UnTypedIR::Assign(Box::new(var("s")), Box::new(h))],
        vec![],
    );
    assert_eq!(
        stmt.reconstruct_const_string().to_text(),
        "while (c) {\nlet s = \"H\";\n}\n"
    );
}

#[test]
fn operators_and_operand_order() {
    assert_eq!(texts(vec![push(1), push(2), VmCommand::Add]), vec!["2 + 1"]);
    assert_eq!(texts(vec![push(1), push(2), VmCommand::Sub]), vec!["1 - 2"]);
    assert_eq!(texts(vec![push(1), push(2), VmCommand::Lt]), vec!["2 > 1"]);
    assert_eq!(texts(vec![push(1), push(2), VmCommand::Gt]), vec!["2 < 1"]);
    assert_eq!(texts(vec![push(1), push(2), VmCommand::Eq]), vec!["2 = 1"]);
    assert_eq!(texts(vec![push(1), push(2), VmCommand::And]), vec!["2 & 1"]);
    assert_eq!(texts(vec![push(1), push(2), VmCommand::Or]), vec!["2 | 1"]);
    assert_eq!(texts(vec![push(1), VmCommand::Neg]), vec!["-(1)"]);
    assert_eq!(texts(vec![push(1), VmCommand::Not]), vec!["~(1)"]);
}

#[test]
fn variables_calls_and_returns() {
    assert_eq!(texts(vec![VmCommand::Push(Segment::ARG, 3)]), vec!["ARG_3"]);
    assert_eq!(texts(vec![VmCommand::Push(Segment::STATIC, -1)]), vec!["STATIC_-1"]);
    assert_eq!(
        texts(vec![push(5), VmCommand::Pop(Segment::CONST, 9)]),
        vec!["let 9 = 5;"]
    );
    assert_eq!(
        texts(vec![push(1), push(2), push(3), VmCommand::Call("f".to_string(), 2)]),
        vec!["f(2, 3)"]
    );
    assert_eq!(texts(vec![VmCommand::Call("g".to_string(), 0)]), vec!["g()"]);
    assert_eq!(texts(vec![VmCommand::Call("g".to_string(), -4)]), vec!["g()"]);
    assert_eq!(texts(vec![push(7), VmCommand::Return]), vec!["return(7);"]);
    assert_eq!(
        texts(vec![push(1), push(2), VmCommand::Pop(Segment::TEMP, 0)]),
        vec!["let TEMP_0 = 2;", "1"]
    );
    assert!(lift_commands(&[]).unwrap().is_empty());
}

#[test]
fn text_of_every_kind_of_node() {
    assert_eq!(num(-2147483648).to_text(), "-2147483648");
    assert_eq!(num(0).to_text(), "0");
    assert_eq!(num(1234567890).to_text(), "1234567890");
    assert_eq!(UnTypedIR::ConstString("a b".to_string()).to_text(), "\"a b\"");
    assert_eq!(UnTypedIR::ArrayOffset(Box::new(var("a")), Box::new(num(2))).to_text(), "a[2]");
    let cond = UnTypedIR::If(
        Box::new(var("c")),
        vec![num(1)],
        vec![],
        vec![num(3)],
    );
    assert_eq!(cond.to_text(), "if (c) {\n1\n}\n3\n");
    let both = UnTypedIR::If(Box::new(var("c")), vec![], vec![num(2)], vec![]);
    assert_eq!(both.to_text(), "if (c) {\n} else {\n2\n}\n");
    let f = UnTypedIR::FuncDef("f".to_string(), vec![num(1), num(2)]);
    assert_eq!(f.to_text(), "function f(...) {\n\n1\n2\n}\n");
}

#[test]
fn small_questions_about_a_node() {
    assert!(num(3).is_const_int());
    assert!(!var("x").is_const_int());
    assert!(UnTypedIR::ConstString("s".to_string()).is_const_string());
    assert_eq!(num(3).int_value(), 3);
    assert_eq!(UnTypedIR::ConstString("s".to_string()).str(), "s");
    assert!(call("f", vec![num(1), UnTypedIR::ConstString("s".to_string())]).is_const_funcall("f", 2));
    assert!(!call("f", vec![num(1)]).is_const_funcall("f", 2));
    assert!(!call("f", vec![var("x")]).is_const_funcall("f", 1));
    assert!(!call("f", vec![num(1)]).is_const_funcall("g", 1));
    assert!(var("x").is_assigned_to("x"));
    assert!(UnTypedIR::Assign(Box::new(var("x")), Box::new(num(1))).is_assigned_to("x"));
    assert!(!UnTypedIR::Assign(Box::new(var("y")), Box::new(var("x"))).is_assigned_to("x"));
    assert!(!num(1).is_assigned_to("x"));
}

#[test]
fn array_offsets() {
    let sum = UnTypedIR::Binary("+".to_string(), Box::new(var("a")), Box::new(num(4)));
    assert_eq!(sum.to_array_offset().to_text(), "a[4]");
    assert_eq!(var("a").to_array_offset().to_text(), "a[0]");
    let assigned = UnTypedIR::Assign(Box::new(var("p")), Box::new(var("q")));
    assert_eq!(assigned.to_array_offset().to_text(), "q[0]");
}

#[test]
fn uses_and_replacement() {
    let e = UnTypedIR::Binary(
        "+".to_string(),
        Box::new(var("x")),
        Box::new(call("f", vec![var("y"), num(1)])),
    );
    assert!(e.has_use("x"));
    assert!(e.has_use("y"));
    assert!(!e.has_use("z"));
    assert!(!e.has_use("f"));
    let r = e.replace_var("y", &num(9));
    assert_eq!(r.to_text(), "x + f(9, 1)");
    let a = UnTypedIR::ArrayOffset(Box::new(var("x")), Box::new(var("x")));
    assert_eq!(a.replace_var("x", &num(2)).to_text(), "x[2]");
    let w = UnTypedIR::While(Box::new(var("x")), vec![var("x")], vec![var("y")]);
    assert!(w.has_use("y"));
    assert_eq!(w.replace_var("x", &var("k")).to_text(), "while (k) {\nk\n}\ny\n");
}

#[test]
fn a_copy_is_a_deep_copy() {
    let e = call("f", vec![var("y"), UnTypedIR::Unary("-".to_string(), Box::new(num(1)))]);
    assert_eq!(e.clone().to_text(), "f(y, -(1))");
}
