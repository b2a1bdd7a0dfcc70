//! The instruction set of the stack machine and the reading of one line of
//! its assembly text.

use vstd::prelude::*;
use crate::lexer::{
    chars_of, code_end, code_of, lines_of_text, number_of, parse_number, same_text, split_lines,
    split_tokens, tokens,
};

verus! {

/// A memory segment of the stack machine.
#[derive(Debug, Clone, Copy, PartialEq, Eq, Structural)]
pub enum Segment {
    LCL,
    ARG,
    THIS,
    THAT,
    CONST,
    POINTER,
    STATIC,
    TEMP,
}

/// One instruction of the stack machine.
#[derive(Debug)]
pub enum VmCommand {
    Push(Segment, i32),
    Pop(Segment, i32),
    Add,
    Sub,
    Neg,
    Eq,
    Gt,
    Lt,
    And,
    Or,
    Not,
    Label(String),
    Goto(String),
    IfGoto(String),
    Call(String, i32),
    FunDef(String, i32),
    Return,
}

/// The spelling of a segment in variable names.
pub open spec fn segment_name(seg: Segment) -> Seq<char> {
    match seg {
        Segment::LCL => seq!['L', 'C', 'L'],
        Segment::ARG => seq!['A', 'R', 'G'],
        Segment::THIS => seq!['T', 'H', 'I', 'S'],
        Segment::THAT => seq!['T', 'H', 'A', 'T'],
        Segment::CONST => seq!['C', 'O', 'N', 'S', 'T'],
        Segment::POINTER => seq!['P', 'O', 'I', 'N', 'T', 'E', 'R'],
        Segment::STATIC => seq!['S', 'T', 'A', 'T', 'I', 'C'],
        Segment::TEMP => seq!['T', 'E', 'M', 'P'],
    }
}

impl Segment {
    /// The spelling of this segment in variable names.
    pub fn name(&self) -> (r: &'static str)
        ensures
            r@ == segment_name(*self),
    {
        proof {
            reveal_strlit("LCL");
            reveal_strlit("ARG");
            reveal_strlit("THIS");
            reveal_strlit("THAT");
            reveal_strlit("CONST");
            reveal_strlit("POINTER");
            reveal_strlit("STATIC");
            reveal_strlit("TEMP");
        }
        let r = match self {
            Segment::LCL => "LCL",
            Segment::ARG => "ARG",
            Segment::THIS => "THIS",
            Segment::THAT => "THAT",
            Segment::CONST => "CONST",
            Segment::POINTER => "POINTER",
            Segment::STATIC => "STATIC",
            Segment::TEMP => "TEMP",
        };
        assert(r@ =~= segment_name(*self));
        r
    }

    /// The spelling of one of the four pointer-based segments.
    pub fn get_string(&self) -> (r: &'static str)
        requires
            *self == Segment::LCL || *self == Segment::ARG || *self == Segment::THIS || *self
                == Segment::THAT,
        ensures
            r@ == segment_name(*self),
    {
        self.name()
    }
}

impl Clone for VmCommand {
    fn clone(&self) -> (r: Self)
        ensures
            r == *self,
    {
        match self {
            VmCommand::Push(seg, i) => VmCommand::Push(*seg, *i),
            VmCommand::Pop(seg, i) => VmCommand::Pop(*seg, *i),
            VmCommand::Add => VmCommand::Add,
            VmCommand::Sub => VmCommand::Sub,
            VmCommand::Neg => VmCommand::Neg,
            VmCommand::Eq => VmCommand::Eq,
            VmCommand::Gt => VmCommand::Gt,
            VmCommand::Lt => VmCommand::Lt,
            VmCommand::And => VmCommand::And,
            VmCommand::Or => VmCommand::Or,
            VmCommand::Not => VmCommand::Not,
            VmCommand::Label(s) => VmCommand::Label(s.clone()),
            VmCommand::Goto(s) => VmCommand::Goto(s.clone()),
            VmCommand::IfGoto(s) => VmCommand::IfGoto(s.clone()),
            VmCommand::Call(s, n) => VmCommand::Call(s.clone(), *n),
            VmCommand::FunDef(s, n) => VmCommand::FunDef(s.clone(), *n),
            VmCommand::Return => VmCommand::Return,
        }
    }
}

/// Why a line of assembly text cannot be read.
#[derive(Debug, Clone, Copy, PartialEq, Eq, Structural)]
pub enum ParseError {
    /// The first token names no command.
    UnknownCommand,
    /// The token after `push` or `pop` names no segment.
    UnknownSegment,
    /// The command has fewer arguments than it takes.
    MissingArgument,
    /// The argument that should be a signed 32-bit number is none.
    BadNumber,
}

/// A line of a program that cannot be read, and why. Lines count from zero.
#[derive(Debug, Clone, Copy, PartialEq, Eq, Structural)]
pub struct LineError {
    pub line: usize,
    pub fault: ParseError,
}

/// The segment that the word `s` names in assembly text.
pub open spec fn segment_of(s: Seq<char>) -> Option<Segment> {
    if s == "local"@ {
        Some(Segment::LCL)
    } else if s == "argument"@ {
        Some(Segment::ARG)
    } else if s == "this"@ {
        Some(Segment::THIS)
    } else if s == "that"@ {
        Some(Segment::THAT)
    } else if s == "constant"@ {
        Some(Segment::CONST)
    } else if s == "pointer"@ {
        Some(Segment::POINTER)
    } else if s == "static"@ {
        Some(Segment::STATIC)
    } else if s == "temp"@ {
        Some(Segment::TEMP)
    } else {
        None
    }
}

/// The command without arguments that the word `w` names.
pub open spec fn plain_command(w: Seq<char>) -> Option<VmCommand> {
    if w == "add"@ {
        Some(VmCommand::Add)
    } else if w == "sub"@ {
        Some(VmCommand::Sub)
    } else if w == "neg"@ {
        Some(VmCommand::Neg)
    } else if w == "eq"@ {
        Some(VmCommand::Eq)
    } else if w == "gt"@ {
        Some(VmCommand::Gt)
    } else if w == "lt"@ {
        Some(VmCommand::Lt)
    } else if w == "and"@ {
        Some(VmCommand::And)
    } else if w == "or"@ {
        Some(VmCommand::Or)
    } else if w == "not"@ {
        Some(VmCommand::Not)
    } else if w == "return"@ {
        Some(VmCommand::Return)
    } else {
        None
    }
}

/// Why the tokens `t` of a line, of which there is at least one, are no
/// command; none where they are one.
pub open spec fn line_fault(t: Seq<Seq<char>>) -> Option<ParseError> {
    let w = t[0];
    if w == "push"@ || w == "pop"@ {
        if t.len() < 3 {
            Some(ParseError::MissingArgument)
        } else if number_of(t[2]) is None {
            Some(ParseError::BadNumber)
        } else if segment_of(t[1]) is None {
            Some(ParseError::UnknownSegment)
        } else {
            None
        }
    } else if w == "label"@ || w == "goto"@ || w == "if-goto"@ {
        if t.len() < 2 {
            Some(ParseError::MissingArgument)
        } else {
            None
        }
    } else if w == "call"@ || w == "function"@ {
        if t.len() < 3 {
            Some(ParseError::MissingArgument)
        } else if number_of(t[2]) is None {
            Some(ParseError::BadNumber)
        } else {
            None
        }
    } else if plain_command(w) is Some {
        None
    } else {
        Some(ParseError::UnknownCommand)
    }
}

/// Whether `c` is the command that the tokens `t` write, where they write
/// one: the first token selects the kind, the next ones are its arguments,
/// and further ones are not looked at.
pub open spec fn reads_as(t: Seq<Seq<char>>, c: VmCommand) -> bool {
    let w = t[0];
    if w == "push"@ {
        c == VmCommand::Push(segment_of(t[1])->Some_0, number_of(t[2])->Some_0)
    } else if w == "pop"@ {
        c == VmCommand::Pop(segment_of(t[1])->Some_0, number_of(t[2])->Some_0)
    } else if w == "label"@ {
        c is Label && c->Label_0@ == t[1]
    } else if w == "goto"@ {
        c is Goto && c->Goto_0@ == t[1]
    } else if w == "if-goto"@ {
        c is IfGoto && c->IfGoto_0@ == t[1]
    } else if w == "call"@ {
        c is Call && c->Call_0@ == t[1] && c->Call_1 == number_of(t[2])->Some_0
    } else if w == "function"@ {
        c is FunDef && c->FunDef_0@ == t[1] && c->FunDef_1 == number_of(t[2])->Some_0
    } else {
        Some(c) == plain_command(w)
    }
}

/// Whether `r` is what reading the line `line` gives: nothing for a line
/// without tokens before its comment, else the command or the fault.
pub open spec fn line_reads(line: Seq<char>, r: Result<Option<VmCommand>, ParseError>) -> bool {
    let t = tokens(code_of(line));
    if t.len() == 0 {
        r == Ok::<Option<VmCommand>, ParseError>(None)
    } else {
        match line_fault(t) {
            Some(e) => r == Err::<Option<VmCommand>, ParseError>(e),
            None => r is Ok && r->Ok_0 is Some && reads_as(t, r->Ok_0->Some_0),
        }
    }
}

/// Whether the line `line` holds a command or nothing but blanks and a
/// comment.
pub open spec fn line_ok(line: Seq<char>) -> bool {
    let t = tokens(code_of(line));
    t.len() == 0 || line_fault(t) is None
}

/// How many of the first `k` of `lines` hold a command or a fault.
pub open spec fn filled_lines(lines: Seq<Seq<char>>, k: int) -> nat
    decreases k,
{
    if k <= 0 {
        0
    } else {
        filled_lines(lines, k - 1) + if tokens(code_of(lines[k - 1])).len() > 0 {
            1nat
        } else {
            0nat
        }
    }
}

/// Whether `cmds` are the commands of `lines`, in order, none of the lines
/// being at fault.
pub open spec fn program_reads(lines: Seq<Seq<char>>, cmds: Seq<VmCommand>) -> bool {
    &&& cmds.len() == filled_lines(lines, lines.len() as int)
    &&& forall|j: int|
        0 <= j < lines.len() ==> line_ok(#[trigger] lines[j]) && (tokens(code_of(lines[j])).len() > 0
            ==> reads_as(tokens(code_of(lines[j])), cmds[filled_lines(lines, j) as int]))
}

impl Segment {
    /// The segment that the word `s` names in assembly text.
    pub fn parse(s: &String) -> (r: Option<Segment>)
        ensures
            r == segment_of(s@),
    {
        if same_text(s, "local") {
            Some(Segment::LCL)
        } else if same_text(s, "argument") {
            Some(Segment::ARG)
        } else if same_text(s, "this") {
            Some(Segment::THIS)
        } else if same_text(s, "that") {
            Some(Segment::THAT)
        } else if same_text(s, "constant") {
            Some(Segment::CONST)
        } else if same_text(s, "pointer") {
            Some(Segment::POINTER)
        } else if same_text(s, "static") {
            Some(Segment::STATIC)
        } else if same_text(s, "temp") {
            Some(Segment::TEMP)
        } else {
            None
        }
    }

    /// The segment that the word `s` names, for a word that names one.
    pub fn from_string(s: &str) -> (r: Self)
        requires
            segment_of(s@) is Some,
        ensures
            Some(r) == segment_of(s@),
    {
        let word = s.to_owned();
        match Segment::parse(&word) {
            Some(seg) => seg,
            None => Segment::LCL,
        }
    }
}

/// The command without arguments that the word `w` names.
fn plain(w: &String) -> (r: Option<VmCommand>)
    ensures
        r == plain_command(w@),
{
    if same_text(w, "add") {
        Some(VmCommand::Add)
    } else if same_text(w, "sub") {
        Some(VmCommand::Sub)
    } else if same_text(w, "neg") {
        Some(VmCommand::Neg)
    } else if same_text(w, "eq") {
        Some(VmCommand::Eq)
    } else if same_text(w, "gt") {
        Some(VmCommand::Gt)
    } else if same_text(w, "lt") {
        Some(VmCommand::Lt)
    } else if same_text(w, "and") {
        Some(VmCommand::And)
    } else if same_text(w, "or") {
        Some(VmCommand::Or)
    } else if same_text(w, "not") {
        Some(VmCommand::Not)
    } else if same_text(w, "return") {
        Some(VmCommand::Return)
    } else {
        None
    }
}

/// The command that the tokens `t` write, or why they write none.
fn read_tokens(t: &Vec<String>) -> (r: Result<VmCommand, ParseError>)
    requires
        t@.len() > 0,
    ensures
        ({
            let words = Seq::new(t@.len(), |i: int| t@[i]@);
            match line_fault(words) {
                Some(e) => r == Err::<VmCommand, ParseError>(e),
                None => r is Ok && reads_as(words, r->Ok_0),
            }
        }),
{
    let ghost words = Seq::new(t@.len(), |i: int| t@[i]@);
    let w = &t[0];
    assert(words[0] == w@);
    let is_push = same_text(w, "push");
    if is_push || same_text(w, "pop") {
        if t.len() < 3 {
            return Err(ParseError::MissingArgument);
        }
        assert(words[1] == t@[1]@ && words[2] == t@[2]@);
        let offset = match parse_number(&t[2]) {
            Some(i) => i,
            None => {
                return Err(ParseError::BadNumber);
            },
        };
        let seg = match Segment::parse(&t[1]) {
            Some(seg) => seg,
            None => {
                return Err(ParseError::UnknownSegment);
            },
        };
        if is_push {
            Ok(VmCommand::Push(seg, offset))
        } else {
            Ok(VmCommand::Pop(seg, offset))
        }
    } else if same_text(w, "label") {
        if t.len() < 2 {
            return Err(ParseError::MissingArgument);
        }
        assert(words[1] == t@[1]@);
        Ok(VmCommand::Label(t[1].clone()))
    } else if same_text(w, "goto") {
        if t.len() < 2 {
            return Err(ParseError::MissingArgument);
        }
        assert(words[1] == t@[1]@);
        Ok(VmCommand::Goto(t[1].clone()))
    } else if same_text(w, "if-goto") {
        if t.len() < 2 {
            return Err(ParseError::MissingArgument);
        }
        assert(words[1] == t@[1]@);
        Ok(VmCommand::IfGoto(t[1].clone()))
    } else {
        let is_call = same_text(w, "call");
        if is_call || same_text(w, "function") {
            if t.len() < 3 {
                return Err(ParseError::MissingArgument);
            }
            assert(words[1] == t@[1]@ && words[2] == t@[2]@);
            let count = match parse_number(&t[2]) {
                Some(i) => i,
                None => {
                    return Err(ParseError::BadNumber);
                },
            };
            if is_call {
                Ok(VmCommand::Call(t[1].clone(), count))
            } else {
                Ok(VmCommand::FunDef(t[1].clone(), count))
            }
        } else {
            match plain(w) {
                Some(c) => Ok(c),
                None => Err(ParseError::UnknownCommand),
            }
        }
    }
}

/// Reads the characters of one line.
fn read_line(line: &Vec<char>) -> (r: Result<Option<VmCommand>, ParseError>)
    ensures
        line_reads(line@, r),
{
    let end = code_end(line);
    let t = split_tokens(line, end);
    proof {
        assert(Seq::new(t@.len(), |i: int| t@[i]@) =~= tokens(code_of(line@)));
    }
    if t.len() == 0 {
        return Ok(None);
    }
    match read_tokens(&t) {
        Ok(c) => Ok(Some(c)),
        Err(e) => Err(e),
    }
}

impl VmCommand {
    /// Reads one line of assembly text: nothing for a line without tokens
    /// before its comment, else its command, or why it holds none.
    pub fn parse_line(line: &str) -> (r: Result<Option<VmCommand>, ParseError>)
        ensures
            line_reads(line@, r),
    {
        let chars = chars_of(line);
        read_line(&chars)
    }

    /// Reads one line of assembly text that holds a command or nothing but
    /// blanks and a comment.
    pub fn from_line(line: &str) -> (r: Option<VmCommand>)
        requires
            line_ok(line@),
        ensures
            line_reads(line@, Ok::<Option<VmCommand>, ParseError>(r)),
    {
        match VmCommand::parse_line(line) {
            Ok(c) => c,
            Err(_) => None,
        }
    }
}

/// Reads a program: the commands of its lines in order, or the first line
/// that cannot be read.
pub fn parse_program(text: &str) -> (r: Result<Vec<VmCommand>, LineError>)
    ensures
        ({
            let lines = lines_of_text(text@);
            match r {
                Ok(cmds) => program_reads(lines, cmds@),
                Err(e) => {
                    &&& e.line < lines.len()
                    &&& forall|j: int| 0 <= j < e.line ==> line_ok(#[trigger] lines[j])
                    &&& tokens(code_of(lines[e.line as int])).len() > 0
                    &&& line_fault(tokens(code_of(lines[e.line as int]))) == Some(e.fault)
                },
            }
        }),
{
    let chars = chars_of(text);
    let lines = split_lines(&chars);
    let ghost texts = lines_of_text(text@);
    let mut cmds: Vec<VmCommand> = Vec::new();
    let mut k: usize = 0;
    while k < lines.len()
        invariant
            k <= lines@.len(),
            texts == lines_of_text(text@),
            lines@.len() == texts.len(),
            forall|i: int| 0 <= i < lines@.len() ==> (#[trigger] lines@[i])@ == texts[i],
            cmds@.len() == filled_lines(texts, k as int),
            forall|j: int|
                0 <= j < k ==> line_ok(#[trigger] texts[j]) && (tokens(code_of(texts[j])).len() > 0
                    ==> reads_as(tokens(code_of(texts[j])), cmds@[filled_lines(texts, j) as int])),
        decreases lines@.len() - k,
    {
        assert(lines@[k as int]@ == texts[k as int]);
        let ghost before = cmds@;
        match read_line(&lines[k]) {
            Ok(Some(c)) => {
                cmds.push(c);
            },
            Ok(None) => {},
            Err(fault) => {
                return Err(LineError { line: k, fault });
            },
        }
        proof {
            assert forall|j: int| 0 <= j < k + 1 implies line_ok(#[trigger] texts[j]) && (tokens(
                code_of(texts[j]),
            ).len() > 0 ==> reads_as(
                tokens(code_of(texts[j])),
                cmds@[filled_lines(texts, j) as int],
            )) by {
                if j < k {
                    lemma_filled_lines_grow(texts, j, k as int);
                    if tokens(code_of(texts[j])).len() > 0 {
                        assert(filled_lines(texts, j + 1) == filled_lines(texts, j) + 1);
                        lemma_filled_lines_grow(texts, j + 1, k as int);
                        assert(cmds@[filled_lines(texts, j) as int] == before[filled_lines(
                            texts,
                            j,
                        ) as int]);
                    }
                }
            }
        }
        k = k + 1;
    }
    Ok(cmds)
}

/// The count of filled lines does not fall as more lines are counted.
pub proof fn lemma_filled_lines_grow(lines: Seq<Seq<char>>, j: int, k: int)
    requires
        0 <= j <= k,
    ensures
        filled_lines(lines, j) <= filled_lines(lines, k),
    decreases k - j,
{
    if j < k {
        lemma_filled_lines_grow(lines, j, k - 1);
    }
}

} // verus!
