//! The text of a rebuilt tree: a loose pseudo-source in which a conditional
//! or a loop is followed, after its closing brace, by what comes after it.

use vstd::prelude::*;
use vstd::string::*;
use crate::text::{append_int, int_text};
use crate::untyped_ir::{irs_view, Ir, UnTypedIR};

verus! {

/// The text of one node: a string constant stands in double quotes, an
/// operator between its operands without brackets, the arguments of a call
/// after its name, and a conditional or a loop puts its arms or body in
/// braces, one statement to a line, and what follows it after the closing
/// brace.
pub open spec fn text_of(ir: Ir) -> Seq<char>
    decreases ir, 0nat,
{
    match ir {
        Ir::FuncDef(name, body) => "function "@ + name + "(...) {\n\n"@ + lines_of(body, body.len())
            + "}\n"@,
        Ir::ConstInt(i) => int_text(i),
        Ir::ConstString(s) => "\""@ + s + "\""@,
        Ir::Var(s) => s,
        Ir::Unary(op, e) => op + "("@ + text_of(*e) + ")"@,
        Ir::Binary(op, a, b) => text_of(*a) + " "@ + op + " "@ + text_of(*b),
        Ir::Call(name, args) => name + "("@ + args_of(args, args.len()) + ")"@,
        Ir::Assign(l, r) => "let "@ + text_of(*l) + " = "@ + text_of(*r) + ";"@,
        Ir::Return(e) => "return("@ + text_of(*e) + ");"@,
        Ir::If(c, t, f, k) => "if ("@ + text_of(*c) + ") {\n"@ + lines_of(t, t.len()) + (if f.len()
            > 0 {
            "} else {\n"@ + lines_of(f, f.len()) + "}\n"@
        } else {
            "}\n"@
        }) + lines_of(k, k.len()),
        Ir::While(c, b, k) => "while ("@ + text_of(*c) + ") {\n"@ + lines_of(b, b.len()) + "}\n"@
            + lines_of(k, k.len()),
        Ir::ArrayOffset(b, o) => text_of(*b) + "["@ + text_of(*o) + "]"@,
    }
}

/// The texts of the first `k` of `l`, each followed by a line break.
pub open spec fn lines_of(l: Seq<Ir>, k: nat) -> Seq<char>
    decreases l, k,
{
    if k == 0 || k > l.len() {
        Seq::empty()
    } else {
        lines_of(l, (k - 1) as nat) + text_of(l[k - 1]) + "\n"@
    }
}

/// The texts of the first `k` of `l`, separated by a comma and a blank.
pub open spec fn args_of(l: Seq<Ir>, k: nat) -> Seq<char>
    decreases l, k,
{
    if k == 0 || k > l.len() {
        Seq::empty()
    } else if k == 1 {
        text_of(l[0])
    } else {
        args_of(l, (k - 1) as nat) + ", "@ + text_of(l[k - 1])
    }
}

/// Appends the texts of `l`, each followed by a line break.
fn append_lines(l: &Vec<UnTypedIR>, out: &mut String)
    ensures
        final(out)@ == old(out)@ + lines_of(irs_view(l@), l@.len()),
    decreases l,
{
    let mut i: usize = 0;
    assert(out@ =~= old(out)@ + lines_of(irs_view(l@), 0));
    while i < l.len()
        invariant
            i <= l@.len(),
            out@ == old(out)@ + lines_of(irs_view(l@), i as nat),
        decreases l@.len() - i,
    {
        append_text(&l[i], out);
        out.append("\n");
        assert(out@ =~= old(out)@ + lines_of(irs_view(l@), (i + 1) as nat));
        i = i + 1;
    }
}

/// Appends the texts of `l`, separated by a comma and a blank.
fn append_args(l: &Vec<UnTypedIR>, out: &mut String)
    ensures
        final(out)@ == old(out)@ + args_of(irs_view(l@), l@.len()),
    decreases l,
{
    let mut i: usize = 0;
    assert(out@ =~= old(out)@ + args_of(irs_view(l@), 0));
    while i < l.len()
        invariant
            i <= l@.len(),
            out@ == old(out)@ + args_of(irs_view(l@), i as nat),
        decreases l@.len() - i,
    {
        if i > 0 {
            out.append(", ");
        }
        append_text(&l[i], out);
        assert(out@ =~= old(out)@ + args_of(irs_view(l@), (i + 1) as nat));
        i = i + 1;
    }
}

/// Appends the text of `ir` to `out`.
#[verifier::rlimit(40)]
pub fn append_text(ir: &UnTypedIR, out: &mut String)
    ensures
        final(out)@ == old(out)@ + text_of(ir@),
    decreases ir,
{
    match ir {
        UnTypedIR::FuncDef(name, body) => {
            out.append("function ");
            out.append(name.as_str());
            out.append("(...) {\n\n");
            append_lines(body, out);
            out.append("}\n");
            assert(out@ =~= old(out)@ + text_of(ir@));
        },
        UnTypedIR::ConstInt(i) => {
            append_int(out, *i);
            assert(out@ =~= old(out)@ + text_of(ir@));
        },
        UnTypedIR::ConstString(s) => {
            out.append("\"");
            out.append(s.as_str());
            out.append("\"");
            assert(out@ =~= old(out)@ + text_of(ir@));
        },
        UnTypedIR::Var(s) => {
            out.append(s.as_str());
            assert(out@ =~= old(out)@ + text_of(ir@));
        },
        UnTypedIR::Unary(op, e) => {
            out.append(op.as_str());
            out.append("(");
            append_text(e, out);
            out.append(")");
            assert(out@ =~= old(out)@ + text_of(ir@));
        },
        UnTypedIR::Binary(op, a, b) => {
            append_text(a, out);
            out.append(" ");
            out.append(op.as_str());
            out.append(" ");
            append_text(b, out);
            assert(out@ =~= old(out)@ + text_of(ir@));
        },
        UnTypedIR::Call(name, args) => {
            out.append(name.as_str());
            out.append("(");
            append_args(args, out);
            out.append(")");
            assert(out@ =~= old(out)@ + text_of(ir@));
        },
        UnTypedIR::Assign(l, r) => {
            out.append("let ");
            append_text(l, out);
            out.append(" = ");
            append_text(r, out);
            out.append(";");
            assert(out@ =~= old(out)@ + text_of(ir@));
        },
        UnTypedIR::Return(e) => {
            out.append("return(");
            append_text(e, out);
            out.append(");");
            assert(out@ =~= old(out)@ + text_of(ir@));
        },
        UnTypedIR::If(c, t, f, k) => {
            let ghost head = "if ("@ + text_of(c@) + ") {\n"@ + lines_of(irs_view(t@), t@.len());
            let ghost middle = if f@.len() > 0 {
                "} else {\n"@ + lines_of(irs_view(f@), f@.len()) + "}\n"@
            } else {
                "}\n"@
            };
            out.append("if (");
            append_text(c, out);
            out.append(") {\n");
            append_lines(t, out);
            assert(out@ =~= old(out)@ + head);
            if f.len() > 0 {
                out.append("} else {\n");
                append_lines(f, out);
                out.append("}\n");
                assert(out@ =~= old(out)@ + head + middle);
            } else {
                out.append("}\n");
                assert(out@ =~= old(out)@ + head + middle);
            }
            append_lines(k, out);
            assert(ir@ == Ir::If(Box::new(c@), irs_view(t@), irs_view(f@), irs_view(k@)));
            assert(text_of(ir@) == head + middle + lines_of(irs_view(k@), k@.len()));
            assert(out@ =~= old(out)@ + text_of(ir@));
        },
        UnTypedIR::While(c, b, k) => {
            out.append("while (");
            append_text(c, out);
            out.append(") {\n");
            append_lines(b, out);
            out.append("}\n");
            append_lines(k, out);
            assert(out@ =~= old(out)@ + text_of(ir@));
        },
        UnTypedIR::ArrayOffset(b, o) => {
            append_text(b, out);
            out.append("[");
            append_text(o, out);
            out.append("]");
            assert(out@ =~= old(out)@ + text_of(ir@));
        },
    }
    assert(out@ =~= old(out)@ + text_of(ir@));
}

impl UnTypedIR {
    /// The text of the tree.
    pub fn to_text(&self) -> (r: String)
        ensures
            r@ == text_of(self@),
    {
        let mut out = String::new();
        append_text(self, &mut out);
        assert(out@ =~= text_of(self@));
        out
    }
}

} // verus!
