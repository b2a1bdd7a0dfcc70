use decompiler::lexer::parse_number;
use decompiler::parser::{parse_program, LineError, ParseError, Segment, VmCommand};

fn one(line: &str) -> Result<Option<VmCommand>, ParseError> {
    VmCommand::parse_line(line)
}

#[test]
fn push_and_pop_take_a_segment_and_a_number() {
    assert!(matches!(one("push constant 7"), Ok(Some(VmCommand::Push(Segment::CONST, 7)))));
    assert!(matches!(one("pop local -3"), Ok(Some(VmCommand::Pop(Segment::LCL, -3)))));
    assert!(matches!(one("push argument +2"), Ok(Some(VmCommand::Push(Segment::ARG, 2)))));
    assert!(matches!(one("push this 0"), Ok(Some(VmCommand::Push(Segment::THIS, 0)))));
    assert!(matches!(one("push that 1"), Ok(Some(VmCommand::Push(Segment::THAT, 1)))));
    assert!(matches!(one("push pointer 1"), Ok(Some(VmCommand::Push(Segment::POINTER, 1)))));
    assert!(matches!(one("push static 4"), Ok(Some(VmCommand::Push(Segment::STATIC, 4)))));
    assert!(matches!(one("push temp 5"), Ok(Some(VmCommand::Push(Segment::TEMP, 5)))));
}

#[test]
fn commands_without_arguments() {
    assert!(matches!(one("add"), Ok(Some(VmCommand::Add))));
    assert!(matches!(one("sub"), Ok(Some(VmCommand::Sub))));
    assert!(matches!(one("neg"), Ok(Some(VmCommand::Neg))));
    assert!(matches!(one("eq"), Ok(Some(VmCommand::Eq))));
    assert!(matches!(one("gt"), Ok(Some(VmCommand::Gt))));
    assert!(matches!(one("lt"), Ok(Some(VmCommand::Lt))));
    assert!(matches!(one("and"), Ok(Some(VmCommand::And))));
    assert!(matches!(one("or"), Ok(Some(VmCommand::Or))));
    assert!(matches!(one("not"), Ok(Some(VmCommand::Not))));
    assert!(matches!(one("return"), Ok(Some(VmCommand::Return))));
}

#[test]
fn commands_with_a_name() {
    match one("label LOOP_1") {
        Ok(Some(VmCommand::Label(l))) => assert_eq!(l, "LOOP_1"),
        _ => panic!("no label"),
    }
    match one("goto END") {
        Ok(Some(VmCommand::Goto(l))) => assert_eq!(l, "END"),
        _ => panic!("no goto"),
    }
    match one("if-goto END") {
        Ok(Some(VmCommand::IfGoto(l))) => assert_eq!(l, "END"),
        _ => panic!("no if-goto"),
    }
    match one("call Math.max 2") {
        Ok(Some(VmCommand::Call(f, n))) => {
            assert_eq!(f, "Math.max");
            assert_eq!(n, 2);
        }
        _ => panic!("no call"),
    }
    match one("function Main.main 3") {
        Ok(Some(VmCommand::FunDef(f, n))) => {
            assert_eq!(f, "Main.main");
            assert_eq!(n, 3);
        }
        _ => panic!("no function header"),
    }
}

#[test]
fn comments_and_blanks_are_stripped() {
    assert!(matches!(one(""), Ok(None)));
    assert!(matches!(one("   \t "), Ok(None)));
    assert!(matches!(one("// only a comment"), Ok(None)));
    assert!(matches!(one("  add   // sum"), Ok(Some(VmCommand::Add))));
    assert!(matches!(
        one("\tpush   constant \t 12//x"),
        Ok(Some(VmCommand::Push(Segment::CONST, 12)))
    ));
    assert!(matches!(one("add / not a comment"), Ok(Some(VmCommand::Add))));
}

#[test]
fn each_fault_of_a_line() {
    assert_eq!(one("jump X").err(), Some(ParseError::UnknownCommand));
    assert_eq!(one("addx").err(), Some(ParseError::UnknownCommand));
    assert_eq!(one("push nowhere 1").err(), Some(ParseError::UnknownSegment));
    assert_eq!(one("push constant").err(), Some(ParseError::MissingArgument));
    assert_eq!(one("label").err(), Some(ParseError::MissingArgument));
    assert_eq!(one("call f").err(), Some(ParseError::MissingArgument));
    assert_eq!(one("push constant x1").err(), Some(ParseError::BadNumber));
    assert_eq!(one("call f 2147483648").err(), Some(ParseError::BadNumber));
    assert_eq!(one("push nowhere x").err(), Some(ParseError::BadNumber));
}

#[test]
fn numbers_are_signed_32_bit() {
    assert_eq!(parse_number(&"0".to_string()), Some(0));
    assert_eq!(parse_number(&"007".to_string()), Some(7));
    assert_eq!(parse_number(&"+15".to_string()), Some(15));
    assert_eq!(parse_number(&"-15".to_string()), Some(-15));
    assert_eq!(parse_number(&"2147483647".to_string()), Some(i32::MAX));
    assert_eq!(parse_number(&"-2147483648".to_string()), Some(i32::MIN));
    assert_eq!(parse_number(&"2147483648".to_string()), None);
    assert_eq!(parse_number(&"-2147483649".to_string()), None);
    assert_eq!(parse_number(&"99999999999999999999999".to_string()), None);
    assert_eq!(parse_number(&"".to_string()), None);
    assert_eq!(parse_number(&"-".to_string()), None);
    assert_eq!(parse_number(&"+".to_string()), None);
    assert_eq!(parse_number(&"1a".to_string()), None);
    assert_eq!(parse_number(&"--1".to_string()), None);
}

#[test]
fn a_program_is_read_line_by_line() {
    let cmds = parse_program("push constant 1\r\n\n// note\n  neg\nreturn").unwrap();
    assert_eq!(cmds.len(), 3);
    assert!(matches!(cmds[0], VmCommand::Push(Segment::CONST, 1)));
    assert!(matches!(cmds[1], VmCommand::Neg));
    assert!(matches!(cmds[2], VmCommand::Return));
    assert_eq!(parse_program("").unwrap().len(), 0);
}

#[test]
fn the_first_bad_line_is_named() {
    let r = parse_program("add\n\nbogus\nalso bogus\n");
    assert_eq!(r.err(), Some(LineError { line: 2, fault: ParseError::UnknownCommand }));
}

#[test]
fn from_line_reads_a_good_line() {
    assert!(matches!(VmCommand::from_line("lt // less"), Some(VmCommand::Lt)));
    assert!(VmCommand::from_line("   ").is_none());
}

#[test]
fn segments_by_name() {
    assert_eq!(Segment::from_string("local"), Segment::LCL);
    assert_eq!(Segment::from_string("temp"), Segment::TEMP);
    assert_eq!(Segment::parse(&"Local".to_string()), None);
    assert_eq!(Segment::LCL.get_string(), "LCL");
    assert_eq!(Segment::ARG.get_string(), "ARG");
    assert_eq!(Segment::THIS.get_string(), "THIS");
    assert_eq!(Segment::THAT.get_string(), "THAT");
    assert_eq!(Segment::POINTER.name(), "POINTER");
}
