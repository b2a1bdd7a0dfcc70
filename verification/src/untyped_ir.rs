//! The untyped tree that the decompiler rebuilds: expressions, statements and
//! structured control flow, with its mathematical model.

use vstd::prelude::*;
use vstd::string::*;

verus! {

/// A node of the rebuilt program.
#[derive(Debug)]
pub enum UnTypedIR {
    FuncDef(String, Vec<UnTypedIR>),
    ConstInt(i32),
    ConstString(String),
    Var(String),
    Unary(String, Box<UnTypedIR>),
    Binary(String, Box<UnTypedIR>, Box<UnTypedIR>),
    Call(String, Vec<UnTypedIR>),
    Assign(Box<UnTypedIR>, Box<UnTypedIR>),
    Return(Box<UnTypedIR>),
    If(Box<UnTypedIR>, Vec<UnTypedIR>, Vec<UnTypedIR>, Vec<UnTypedIR>),
    While(Box<UnTypedIR>, Vec<UnTypedIR>, Vec<UnTypedIR>),
    ArrayOffset(Box<UnTypedIR>, Box<UnTypedIR>),
}

/// The mathematical model of a node: texts are sequences of characters and
/// lists are sequences of models.
pub enum Ir {
    FuncDef(Seq<char>, Seq<Ir>),
    ConstInt(int),
    ConstString(Seq<char>),
    Var(Seq<char>),
    Unary(Seq<char>, Box<Ir>),
    Binary(Seq<char>, Box<Ir>, Box<Ir>),
    Call(Seq<char>, Seq<Ir>),
    Assign(Box<Ir>, Box<Ir>),
    Return(Box<Ir>),
    If(Box<Ir>, Seq<Ir>, Seq<Ir>, Seq<Ir>),
    While(Box<Ir>, Seq<Ir>, Seq<Ir>),
    ArrayOffset(Box<Ir>, Box<Ir>),
}

/// The models of a list of nodes, in order.
pub open spec fn irs_view(l: Seq<UnTypedIR>) -> Seq<Ir>
    decreases l,
{
    Seq::new(l.len(), |i: int| if 0 <= i < l.len() { ir_view(l[i]) } else { Ir::ConstInt(0) })
}

/// The model of one node.
pub open spec fn ir_view(ir: UnTypedIR) -> Ir
    decreases ir,
{
    match ir {
        UnTypedIR::FuncDef(name, body) => Ir::FuncDef(name@, irs_view(body@)),
        UnTypedIR::ConstInt(i) => Ir::ConstInt(i as int),
        UnTypedIR::ConstString(s) => Ir::ConstString(s@),
        UnTypedIR::Var(s) => Ir::Var(s@),
        UnTypedIR::Unary(op, e) => Ir::Unary(op@, Box::new(ir_view(*e))),
        UnTypedIR::Binary(op, a, b) => Ir::Binary(op@, Box::new(ir_view(*a)), Box::new(ir_view(*b))),
        UnTypedIR::Call(name, args) => Ir::Call(name@, irs_view(args@)),
        UnTypedIR::Assign(l, r) => Ir::Assign(Box::new(ir_view(*l)), Box::new(ir_view(*r))),
        UnTypedIR::Return(e) => Ir::Return(Box::new(ir_view(*e))),
        UnTypedIR::If(c, t, f, k) => Ir::If(
            Box::new(ir_view(*c)),
            irs_view(t@),
            irs_view(f@),
            irs_view(k@),
        ),
        UnTypedIR::While(c, b, k) => Ir::While(Box::new(ir_view(*c)), irs_view(b@), irs_view(k@)),
        UnTypedIR::ArrayOffset(b, o) => Ir::ArrayOffset(Box::new(ir_view(*b)), Box::new(ir_view(*o))),
    }
}

impl View for UnTypedIR {
    type V = Ir;

    open spec fn view(&self) -> Ir {
        ir_view(*self)
    }
}

/// A copy of a list of nodes.
pub fn clone_irs(l: &Vec<UnTypedIR>) -> (r: Vec<UnTypedIR>)
    ensures
        irs_view(r@) == irs_view(l@),
    decreases l,
{
    let mut r: Vec<UnTypedIR> = Vec::new();
    let mut i: usize = 0;
    while i < l.len()
        invariant
            i <= l@.len(),
            r@.len() == i,
            forall|k: int| 0 <= k < i ==> (#[trigger] r@[k])@ == l@[k]@,
        decreases l@.len() - i,
    {
        r.push(l[i].clone());
        i = i + 1;
    }
    assert(irs_view(r@) =~= irs_view(l@));
    r
}

impl Clone for UnTypedIR {
    fn clone(&self) -> (r: Self)
        ensures
            r@ == self@,
        decreases self,
    {
        match self {
            UnTypedIR::FuncDef(name, body) => UnTypedIR::FuncDef(name.clone(), clone_irs(body)),
            UnTypedIR::ConstInt(i) => UnTypedIR::ConstInt(*i),
            UnTypedIR::ConstString(s) => UnTypedIR::ConstString(s.clone()),
            UnTypedIR::Var(s) => UnTypedIR::Var(s.clone()),
            UnTypedIR::Unary(op, e) => UnTypedIR::Unary(op.clone(), Box::new((**e).clone())),
            UnTypedIR::Binary(op, a, b) => UnTypedIR::Binary(
                op.clone(),
                Box::new((**a).clone()),
                Box::new((**b).clone()),
            ),
            UnTypedIR::Call(name, args) => UnTypedIR::Call(name.clone(), clone_irs(args)),
            UnTypedIR::Assign(l, r) => UnTypedIR::Assign(
                Box::new((**l).clone()),
                Box::new((**r).clone()),
            ),
            UnTypedIR::Return(e) => UnTypedIR::Return(Box::new((**e).clone())),
            UnTypedIR::If(c, t, f, k) => UnTypedIR::If(
                Box::new((**c).clone()),
                clone_irs(t),
                clone_irs(f),
                clone_irs(k),
            ),
            UnTypedIR::While(c, b, k) => UnTypedIR::While(
                Box::new((**c).clone()),
                clone_irs(b),
                clone_irs(k),
            ),
            UnTypedIR::ArrayOffset(b, o) => UnTypedIR::ArrayOffset(
                Box::new((**b).clone()),
                Box::new((**o).clone()),
            ),
        }
    }
}

impl Ir {
    /// Whether the node is an integer or a string constant.
    pub open spec fn is_const(self) -> bool {
        self is ConstInt || self is ConstString
    }

    /// Whether the node is a call of `func` on `n` constants.
    pub open spec fn is_const_call(self, func: Seq<char>, n: nat) -> bool {
        match self {
            Ir::Call(name, args) => name == func && args.len() == n && forall|i: int|
                0 <= i < args.len() ==> (#[trigger] args[i]).is_const(),
            _ => false,
        }
    }

    /// Whether the node can be read as a base and an offset: a sum, a
    /// variable, or an assignment of one of these.
    pub open spec fn has_offset(self) -> bool
        decreases self,
    {
        match self {
            Ir::Binary(op, _, _) => op == seq!['+'],
            Ir::Var(_) => true,
            Ir::Assign(_, e) => e.has_offset(),
            _ => false,
        }
    }

    /// The base and offset that the node stands for.
    pub open spec fn as_offset(self) -> Ir
        decreases self,
    {
        match self {
            Ir::Binary(_, a, b) => Ir::ArrayOffset(a, b),
            Ir::Var(v) => Ir::ArrayOffset(Box::new(Ir::Var(v)), Box::new(Ir::ConstInt(0))),
            Ir::Assign(_, e) => e.as_offset(),
            _ => self,
        }
    }

    /// Whether the node is the variable `var` or an assignment to it.
    pub open spec fn assigns(self, var: Seq<char>) -> bool {
        match self {
            Ir::Var(v) => v == var,
            Ir::Assign(target, _) => *target == Ir::Var(var),
            _ => false,
        }
    }
}

impl UnTypedIR {
    /// Whether the node is an integer constant.
    pub fn is_const_int(&self) -> (r: bool)
        ensures
            r == (self@ is ConstInt),
    {
        match self {
            UnTypedIR::ConstInt(_) => true,
            _ => false,
        }
    }

    /// Whether the node is a string constant.
    pub fn is_const_string(&self) -> (r: bool)
        ensures
            r == (self@ is ConstString),
    {
        match self {
            UnTypedIR::ConstString(_) => true,
            _ => false,
        }
    }

    /// The value of an integer constant.
    pub fn int_value(&self) -> (r: i32)
        requires
            self@ is ConstInt,
        ensures
            self@ == Ir::ConstInt(r as int),
    {
        match self {
            UnTypedIR::ConstInt(i) => *i,
            _ => 0,
        }
    }

    /// The text of a string constant.
    pub fn str(&self) -> (r: &str)
        requires
            self@ is ConstString,
        ensures
            self@ == Ir::ConstString(r@),
    {
        match self {
            UnTypedIR::ConstString(s) => s.as_str(),
            _ => "",
        }
    }

    /// Whether the node is a call of `func` on `n` arguments that are all
    /// integer or string constants.
    pub fn is_const_funcall(&self, func: &str, n: usize) -> (r: bool)
        ensures
            r == self@.is_const_call(func@, n as nat),
    {
        match self {
            UnTypedIR::Call(s, args) => {
                assert(self@ == Ir::Call(s@, irs_view(args@)));
                let name = String::from_str(func);
                if !(*s == name && args.len() == n) {
                    return false;
                }
                let mut i: usize = 0;
                while i < args.len()
                    invariant
                        i <= args@.len(),
                        self@ == Ir::Call(s@, irs_view(args@)),
                        forall|k: int| 0 <= k < i ==> (#[trigger] irs_view(args@)[k]).is_const(),
                    decreases args@.len() - i,
                {
                    if !(args[i].is_const_int() || args[i].is_const_string()) {
                        assert(!irs_view(args@)[i as int].is_const());
                        return false;
                    }
                    i = i + 1;
                }
                true
            },
            _ => false,
        }
    }

    /// Reads the node as a base and an offset: a sum gives its two
    /// operands, a variable gives itself and zero, an assignment gives what
    /// its right side gives.
    pub fn to_array_offset(self) -> (r: Self)
        requires
            self@.has_offset(),
        ensures
            r@ == self@.as_offset(),
        decreases self,
    {
        match self {
            UnTypedIR::Binary(_, e1, e2) => UnTypedIR::ArrayOffset(e1, e2),
            UnTypedIR::Var(v) => {
                let base = UnTypedIR::Var(v);
                let zero = UnTypedIR::ConstInt(0);
                assert(base@ == Ir::Var(v@));
                assert(zero@ == Ir::ConstInt(0));
                UnTypedIR::ArrayOffset(Box::new(base), Box::new(zero))
            },
            UnTypedIR::Assign(_, e) => {
                assert(self@->Assign_1 == Box::new((*e)@));
                (*e).to_array_offset()
            },
            other => other,
        }
    }

    /// Whether the node is the variable `var` or an assignment to it.
    pub fn is_assigned_to(&self, var: &str) -> (r: bool)
        ensures
            r == self@.assigns(var@),
    {
        let name = String::from_str(var);
        match self {
            UnTypedIR::Var(s) => *s == name,
            UnTypedIR::Assign(s, _) => {
                assert(self@->Assign_0 == Box::new((**s)@));
                match &**s {
                    UnTypedIR::Var(v) => *v == name,
                    _ => false,
                }
            },
            _ => false,
        }
    }
}

} // verus!
