//! Passes over the rebuilt tree: whether a variable is used, putting an
//! expression in the place of a variable, and folding the calls that build
//! a string character by character into the string itself.

use vstd::prelude::*;
use vstd::string::*;
use crate::text::{byte_char, low_byte_char, push_char};
use crate::untyped_ir::{clone_irs, irs_view, Ir, UnTypedIR};

verus! {

/// Whether the variable `var` occurs in `ir`.
pub open spec fn uses(ir: Ir, var: Seq<char>) -> bool
    decreases ir,
{
    match ir {
        Ir::FuncDef(_, body) => any_uses(body, var),
        Ir::ConstInt(_) => false,
        Ir::ConstString(_) => false,
        Ir::Var(v) => v == var,
        Ir::Unary(_, e) => uses(*e, var),
        Ir::Binary(_, a, b) => uses(*a, var) || uses(*b, var),
        Ir::Call(_, args) => any_uses(args, var),
        Ir::Assign(l, r) => uses(*l, var) || uses(*r, var),
        Ir::Return(e) => uses(*e, var),
        Ir::If(c, t, f, k) => uses(*c, var) || any_uses(t, var) || any_uses(f, var) || any_uses(
            k,
            var,
        ),
        Ir::While(c, b, k) => uses(*c, var) || any_uses(b, var) || any_uses(k, var),
        Ir::ArrayOffset(b, o) => uses(*b, var) || uses(*o, var),
    }
}

/// Whether the variable `var` occurs in one of `l`.
pub open spec fn any_uses(l: Seq<Ir>, var: Seq<char>) -> bool
    decreases l,
{
    exists|i: int| 0 <= i < l.len() && uses(#[trigger] l[i], var)
}

/// The tree `ir` with `exp` in the place of every occurrence of the
/// variable `var`. The base of an array access is left as it is.
pub open spec fn replaced(ir: Ir, var: Seq<char>, exp: Ir) -> Ir
    decreases ir,
{
    match ir {
        Ir::FuncDef(name, body) => Ir::FuncDef(name, replaced_all(body, var, exp)),
        Ir::ConstInt(_) => ir,
        Ir::ConstString(_) => ir,
        Ir::Var(v) => if v == var {
            exp
        } else {
            ir
        },
        Ir::Unary(op, e) => Ir::Unary(op, Box::new(replaced(*e, var, exp))),
        Ir::Binary(op, a, b) => Ir::Binary(
            op,
            Box::new(replaced(*a, var, exp)),
            Box::new(replaced(*b, var, exp)),
        ),
        Ir::Call(name, args) => Ir::Call(name, replaced_all(args, var, exp)),
        Ir::Assign(l, r) => Ir::Assign(
            Box::new(replaced(*l, var, exp)),
            Box::new(replaced(*r, var, exp)),
        ),
        Ir::Return(e) => Ir::Return(Box::new(replaced(*e, var, exp))),
        Ir::If(c, t, f, k) => Ir::If(
            Box::new(replaced(*c, var, exp)),
            replaced_all(t, var, exp),
            replaced_all(f, var, exp),
            replaced_all(k, var, exp),
        ),
        Ir::While(c, b, k) => Ir::While(
            Box::new(replaced(*c, var, exp)),
            replaced_all(b, var, exp),
            replaced_all(k, var, exp),
        ),
        Ir::ArrayOffset(b, o) => Ir::ArrayOffset(b, Box::new(replaced(*o, var, exp))),
    }
}

/// Each of `l` with `exp` in the place of the variable `var`.
pub open spec fn replaced_all(l: Seq<Ir>, var: Seq<char>, exp: Ir) -> Seq<Ir>
    decreases l,
{
    Seq::new(
        l.len(),
        |i: int|
            if 0 <= i < l.len() {
                replaced(l[i], var, exp)
            } else {
                exp
            },
    )
}

/// The name of the library call that appends one character to a string.
pub open spec fn append_char_name() -> Seq<char> {
    "String.appendChar"@
}

/// The name of the library call that makes an empty string.
pub open spec fn new_string_name() -> Seq<char> {
    "String.new"@
}

/// A call of `name` on the folded arguments `args`: where it appends a
/// constant character to a string constant or to a fresh string, the string
/// that results; the call itself otherwise.
pub open spec fn folded_call(name: Seq<char>, args: Seq<Ir>) -> Ir {
    if name == append_char_name() && args.len() == 2 && args[1] is ConstInt {
        let c = low_byte_char(args[1]->ConstInt_0);
        if args[0] is ConstString {
            Ir::ConstString(args[0]->ConstString_0.push(c))
        } else if args[0].is_const_call(new_string_name(), 1) {
            Ir::ConstString(seq![c])
        } else {
            Ir::Call(name, args)
        }
    } else {
        Ir::Call(name, args)
    }
}

/// The tree `ir` with every chain of calls that builds a string constant
/// folded into that constant, in every part of the tree.
pub open spec fn folded(ir: Ir) -> Ir
    decreases ir,
{
    match ir {
        Ir::FuncDef(name, body) => Ir::FuncDef(name, folded_all(body)),
        Ir::Unary(op, e) => Ir::Unary(op, Box::new(folded(*e))),
        Ir::Binary(op, a, b) => Ir::Binary(op, Box::new(folded(*a)), Box::new(folded(*b))),
        Ir::Call(name, args) => folded_call(name, folded_all(args)),
        Ir::Assign(l, r) => Ir::Assign(Box::new(folded(*l)), Box::new(folded(*r))),
        Ir::Return(e) => Ir::Return(Box::new(folded(*e))),
        Ir::If(c, t, f, k) => Ir::If(
            Box::new(folded(*c)),
            folded_all(t),
            folded_all(f),
            folded_all(k),
        ),
        Ir::While(c, b, k) => Ir::While(Box::new(folded(*c)), folded_all(b), folded_all(k)),
        Ir::ArrayOffset(b, o) => Ir::ArrayOffset(Box::new(folded(*b)), Box::new(folded(*o))),
        _ => ir,
    }
}

/// Each of `l`, folded.
pub open spec fn folded_all(l: Seq<Ir>) -> Seq<Ir>
    decreases l,
{
    Seq::new(
        l.len(),
        |i: int|
            if 0 <= i < l.len() {
                folded(l[i])
            } else {
                l[0]
            },
    )
}

/// Whether the variable `name` occurs in one of `l`.
fn any_use(l: &Vec<UnTypedIR>, name: &String) -> (r: bool)
    ensures
        r == any_uses(irs_view(l@), name@),
    decreases l,
{
    let mut i: usize = 0;
    while i < l.len()
        invariant
            i <= l@.len(),
            forall|k: int| 0 <= k < i ==> !uses(#[trigger] irs_view(l@)[k], name@),
        decreases l@.len() - i,
    {
        if use_of(&l[i], name) {
            assert(uses(irs_view(l@)[i as int], name@));
            return true;
        }
        i = i + 1;
    }
    false
}

/// Whether the variable `name` occurs in `ir`.
fn use_of(ir: &UnTypedIR, name: &String) -> (r: bool)
    ensures
        r == uses(ir@, name@),
    decreases ir,
{
    match ir {
        UnTypedIR::FuncDef(_, body) => any_use(body, name),
        UnTypedIR::ConstInt(_) => false,
        UnTypedIR::ConstString(_) => false,
        UnTypedIR::Var(v) => *v == *name,
        UnTypedIR::Unary(_, e) => use_of(e, name),
        UnTypedIR::Binary(_, a, b) => use_of(a, name) || use_of(b, name),
        UnTypedIR::Call(_, args) => any_use(args, name),
        UnTypedIR::Assign(l, r) => use_of(l, name) || use_of(r, name),
        UnTypedIR::Return(e) => use_of(e, name),
        UnTypedIR::If(c, t, f, k) => use_of(c, name) || any_use(t, name) || any_use(f, name)
            || any_use(k, name),
        UnTypedIR::While(c, b, k) => use_of(c, name) || any_use(b, name) || any_use(k, name),
        UnTypedIR::ArrayOffset(b, o) => use_of(b, name) || use_of(o, name),
    }
}

/// Each of `l` with `exp` in the place of the variable `name`.
fn replace_all(l: &Vec<UnTypedIR>, name: &String, exp: &UnTypedIR) -> (r: Vec<UnTypedIR>)
    ensures
        irs_view(r@) == replaced_all(irs_view(l@), name@, exp@),
    decreases l,
{
    let mut r: Vec<UnTypedIR> = Vec::new();
    let mut i: usize = 0;
    while i < l.len()
        invariant
            i <= l@.len(),
            r@.len() == i,
            forall|k: int| 0 <= k < i ==> (#[trigger] r@[k])@ == replaced(l@[k]@, name@, exp@),
        decreases l@.len() - i,
    {
        r.push(replace_in(&l[i], name, exp));
        i = i + 1;
    }
    assert(irs_view(r@) =~= replaced_all(irs_view(l@), name@, exp@));
    r
}

/// The tree `ir` with `exp` in the place of the variable `name`.
fn replace_in(ir: &UnTypedIR, name: &String, exp: &UnTypedIR) -> (r: UnTypedIR)
    ensures
        r@ == replaced(ir@, name@, exp@),
    decreases ir,
{
    match ir {
        UnTypedIR::FuncDef(f, body) => UnTypedIR::FuncDef(f.clone(), replace_all(body, name, exp)),
        UnTypedIR::ConstInt(i) => UnTypedIR::ConstInt(*i),
        UnTypedIR::ConstString(s) => UnTypedIR::ConstString(s.clone()),
        UnTypedIR::Var(v) => if *v == *name {
            exp.clone()
        } else {
            UnTypedIR::Var(v.clone())
        },
        UnTypedIR::Unary(op, e) => UnTypedIR::Unary(op.clone(), Box::new(replace_in(e, name, exp))),
        UnTypedIR::Binary(op, a, b) => UnTypedIR::Binary(
            op.clone(),
            Box::new(replace_in(a, name, exp)),
            Box::new(replace_in(b, name, exp)),
        ),
        UnTypedIR::Call(f, args) => UnTypedIR::Call(f.clone(), replace_all(args, name, exp)),
        UnTypedIR::Assign(l, r) => UnTypedIR::Assign(
            Box::new(replace_in(l, name, exp)),
            Box::new(replace_in(r, name, exp)),
        ),
        UnTypedIR::Return(e) => UnTypedIR::Return(Box::new(replace_in(e, name, exp))),
        UnTypedIR::If(c, t, f, k) => UnTypedIR::If(
            Box::new(replace_in(c, name, exp)),
            replace_all(t, name, exp),
            replace_all(f, name, exp),
            replace_all(k, name, exp),
        ),
        UnTypedIR::While(c, b, k) => UnTypedIR::While(
            Box::new(replace_in(c, name, exp)),
            replace_all(b, name, exp),
            replace_all(k, name, exp),
        ),
        UnTypedIR::ArrayOffset(b, o) => UnTypedIR::ArrayOffset(
            Box::new((**b).clone()),
            Box::new(replace_in(o, name, exp)),
        ),
    }
}

/// Each of `l`, folded.
fn fold_all(l: &Vec<UnTypedIR>) -> (r: Vec<UnTypedIR>)
    ensures
        irs_view(r@) == folded_all(irs_view(l@)),
    decreases l,
{
    let mut r: Vec<UnTypedIR> = Vec::new();
    let mut i: usize = 0;
    while i < l.len()
        invariant
            i <= l@.len(),
            r@.len() == i,
            forall|k: int| 0 <= k < i ==> (#[trigger] r@[k])@ == folded(l@[k]@),
        decreases l@.len() - i,
    {
        r.push(fold_in(&l[i]));
        i = i + 1;
    }
    assert(irs_view(r@) =~= folded_all(irs_view(l@)));
    r
}

/// A call of `name` on the folded arguments `args`, or the string constant
/// that it builds.
fn fold_call(name: &String, args: Vec<UnTypedIR>) -> (r: UnTypedIR)
    ensures
        r@ == folded_call(name@, irs_view(args@)),
{
    let append = String::from_str("String.appendChar");
    if *name == append && args.len() == 2 && args[1].is_const_int() {
        let c = byte_char(args[1].int_value());
        if args[0].is_const_string() {
            let mut text = String::from_str(args[0].str());
            push_char(&mut text, c);
            return UnTypedIR::ConstString(text);
        }
        if args[0].is_const_funcall("String.new", 1) {
            let mut text = String::new();
            push_char(&mut text, c);
            assert(text@ =~= seq![c]);
            return UnTypedIR::ConstString(text);
        }
    }
    UnTypedIR::Call(name.clone(), args)
}

/// The tree `ir` with the calls that build a string constant folded.
fn fold_in(ir: &UnTypedIR) -> (r: UnTypedIR)
    ensures
        r@ == folded(ir@),
    decreases ir,
{
    match ir {
        UnTypedIR::FuncDef(f, body) => UnTypedIR::FuncDef(f.clone(), fold_all(body)),
        UnTypedIR::Unary(op, e) => UnTypedIR::Unary(op.clone(), Box::new(fold_in(e))),
        UnTypedIR::Binary(op, a, b) => UnTypedIR::Binary(
            op.clone(),
            Box::new(fold_in(a)),
            Box::new(fold_in(b)),
        ),
        UnTypedIR::Call(f, args) => fold_call(f, fold_all(args)),
        UnTypedIR::Assign(l, r) => UnTypedIR::Assign(Box::new(fold_in(l)), Box::new(fold_in(r))),
        UnTypedIR::Return(e) => UnTypedIR::Return(Box::new(fold_in(e))),
        UnTypedIR::If(c, t, f, k) => UnTypedIR::If(
            Box::new(fold_in(c)),
            fold_all(t),
            fold_all(f),
            fold_all(k),
        ),
        UnTypedIR::While(c, b, k) => UnTypedIR::While(Box::new(fold_in(c)), fold_all(b), fold_all(k)),
        UnTypedIR::ArrayOffset(b, o) => UnTypedIR::ArrayOffset(
            Box::new(fold_in(b)),
            Box::new(fold_in(o)),
        ),
        other => other.clone(),
    }
}

impl UnTypedIR {
    /// Whether the variable `var` occurs in the tree.
    pub fn has_use(&self, var: &str) -> (r: bool)
        ensures
            r == uses(self@, var@),
    {
        let name = String::from_str(var);
        use_of(self, &name)
    }

    /// The tree with `exp` in the place of every occurrence of the variable
    /// `var`.
    pub fn replace_var(self, var: &str, exp: &UnTypedIR) -> (r: Self)
        ensures
            r@ == replaced(self@, var@, exp@),
    {
        let name = String::from_str(var);
        replace_in(&self, &name, exp)
    }

    /// The tree with every chain of calls that builds a string constant
    /// folded into that constant.
    pub fn reconstruct_const_string(self) -> (r: Self)
        ensures
            r@ == folded(self@),
    {
        fold_in(&self)
    }
}

} // verus!
