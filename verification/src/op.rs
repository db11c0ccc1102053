//! The vocabulary shared by both tapes: kinds of operations, and the
//! expressions that tapes denote.
use vstd::prelude::*;

verus! {

/// A function of one argument.
#[derive(Clone, Copy, Debug, PartialEq, Eq, Structural)]
pub enum UnaryKind {
    Neg,
    Abs,
    Recip,
    Sqrt,
    Square,
    Sin,
    Cos,
    Tan,
    Asin,
    Acos,
    Atan,
    Exp,
    Ln,
}

/// A function of two arguments.
#[derive(Clone, Copy, Debug, PartialEq, Eq, Structural)]
pub enum BinaryKind {
    Add,
    Sub,
    Mul,
    Div,
    Min,
    Max,
}

impl BinaryKind {
    /// True for `min` and `max`, whose result is one of the operands.
    pub open spec fn selects(self) -> bool {
        self == BinaryKind::Min || self == BinaryKind::Max
    }

    /// True where the operands may change places.
    pub open spec fn commutes(self) -> bool {
        self != BinaryKind::Sub && self != BinaryKind::Div
    }

    /// Tells whether the kind is `min` or `max`.
    pub fn is_select(&self) -> (r: bool)
        ensures
            r == self.selects(),
    {
        match self {
            BinaryKind::Min | BinaryKind::Max => true,
            _ => false,
        }
    }

    /// Tells whether the operands may change places.
    pub fn is_commutative(&self) -> (r: bool)
        ensures
            r == self.commutes(),
    {
        match self {
            BinaryKind::Sub | BinaryKind::Div => false,
            _ => true,
        }
    }
}

/// The expression that a slot or a register holds, written as a tree.
///
/// Two tapes that leave the same tree in their output compute the same
/// value whatever the functions named by the kinds are taken to be.
pub enum Term {
    /// A coordinate axis.
    Input(u8),
    /// A variable, by its index.
    Var(u32),
    /// An immediate, by its bit pattern.
    Imm(u32),
    /// What the register or spill slot with this number held before the
    /// tape ran.
    Init(int),
    /// A function of one argument, applied.
    Unary(UnaryKind, Box<Term>),
    /// A function of two arguments, applied to a left and a right operand.
    Binary(BinaryKind, Box<Term>, Box<Term>),
}

/// What an operation computes, apart from where it reads and writes.
#[derive(Clone, Copy, Debug, PartialEq, Eq, Structural)]
pub enum Shape {
    /// Reads a coordinate axis.
    Input(u8),
    /// Reads a variable.
    Var(u32),
    /// Yields an immediate.
    Imm(u32),
    /// Hands its operand on unchanged.
    Copy,
    /// Applies a function to its operand.
    Unary(UnaryKind),
    /// Applies a function to its two operands.
    Binary(BinaryKind),
    /// Applies a function to its operand and an immediate, in that order.
    RegImm(BinaryKind, u32),
    /// Applies a function to an immediate and its operand, in that order.
    ImmReg(BinaryKind, u32),
}

impl Shape {
    /// The number of operands.
    pub open spec fn arity(self) -> nat {
        match self {
            Shape::Input(_) | Shape::Var(_) | Shape::Imm(_) => 0,
            Shape::Binary(_) => 2,
            _ => 1,
        }
    }

    /// The expression computed from the operands `a` and `b`.
    pub open spec fn apply(self, a: Term, b: Term) -> Term {
        match self {
            Shape::Input(axis) => Term::Input(axis),
            Shape::Var(var) => Term::Var(var),
            Shape::Imm(imm) => Term::Imm(imm),
            Shape::Copy => a,
            Shape::Unary(k) => Term::Unary(k, Box::new(a)),
            Shape::Binary(k) => Term::Binary(k, Box::new(a), Box::new(b)),
            Shape::RegImm(k, imm) => Term::Binary(k, Box::new(a), Box::new(Term::Imm(imm))),
            Shape::ImmReg(k, imm) => Term::Binary(k, Box::new(Term::Imm(imm)), Box::new(a)),
        }
    }

    /// True for `min` and `max`, with two operands or with an immediate.
    pub open spec fn has_choice(self) -> bool {
        match self {
            Shape::Binary(k) => k.selects(),
            Shape::RegImm(k, _) => k.selects(),
            _ => false,
        }
    }

    /// Tells whether the shape is a `min` or a `max`.
    pub fn is_choice(&self) -> (r: bool)
        ensures
            r == self.has_choice(),
    {
        match self {
            Shape::Binary(k) => k.is_select(),
            Shape::RegImm(k, _) => k.is_select(),
            _ => false,
        }
    }

    /// Returns the number of operands.
    pub fn operands(&self) -> (r: u8)
        ensures
            r == self.arity(),
    {
        match self {
            Shape::Input(_) | Shape::Var(_) | Shape::Imm(_) => 0,
            Shape::Binary(_) => 2,
            _ => 1,
        }
    }
}

/// A reading of the kinds: what the inputs, variables and immediates are,
/// what the functions compute, and what registers and spill slots hold
/// before a tape runs. Values can be numbers, intervals, or anything else.
#[verifier::reject_recursive_types(V)]
pub struct Algebra<V> {
    /// The value of each coordinate axis
    pub input: spec_fn(u8) -> V,
    /// The value of each variable
    pub var: spec_fn(u32) -> V,
    /// The value of each immediate
    pub imm: spec_fn(u32) -> V,
    /// The functions of one argument
    pub unary: spec_fn(UnaryKind, V) -> V,
    /// The functions of two arguments
    pub binary: spec_fn(BinaryKind, V, V) -> V,
    /// What each register and spill slot holds at the start
    pub start: spec_fn(int) -> V,
}

/// The value of an expression under a reading of the kinds.
pub open spec fn eval<V>(t: Term, alg: Algebra<V>) -> V
    decreases t,
{
    match t {
        Term::Input(axis) => (alg.input)(axis),
        Term::Var(var) => (alg.var)(var),
        Term::Imm(imm) => (alg.imm)(imm),
        Term::Init(at) => (alg.start)(at),
        Term::Unary(k, a) => (alg.unary)(k, eval(*a, alg)),
        Term::Binary(k, a, b) => (alg.binary)(k, eval(*a, alg), eval(*b, alg)),
    }
}

impl Shape {
    /// The value computed from the operand values `a` and `b`.
    pub open spec fn compute<V>(self, alg: Algebra<V>, a: V, b: V) -> V {
        match self {
            Shape::Input(axis) => (alg.input)(axis),
            Shape::Var(var) => (alg.var)(var),
            Shape::Imm(imm) => (alg.imm)(imm),
            Shape::Copy => a,
            Shape::Unary(k) => (alg.unary)(k, a),
            Shape::Binary(k) => (alg.binary)(k, a, b),
            Shape::RegImm(k, imm) => (alg.binary)(k, a, (alg.imm)(imm)),
            Shape::ImmReg(k, imm) => (alg.binary)(k, (alg.imm)(imm), a),
        }
    }
}

/// The value of an applied shape is computed from the values of the
/// operands.
pub proof fn lemma_eval_apply<V>(shape: Shape, a: Term, b: Term, alg: Algebra<V>)
    ensures
        eval(shape.apply(a, b), alg) == shape.compute(alg, eval(a, alg), eval(b, alg)),
{
    match shape {
        Shape::RegImm(k, imm) => {
            assert(eval(Term::Imm(imm), alg) == (alg.imm)(imm));
        },
        Shape::ImmReg(k, imm) => {
            assert(eval(Term::Imm(imm), alg) == (alg.imm)(imm));
        },
        _ => {},
    }
}

/// The expression says nothing of what registers or spill slots held
/// before a tape ran.
pub open spec fn closed(t: Term) -> bool
    decreases t,
{
    match t {
        Term::Init(_) => false,
        Term::Unary(_, a) => closed(*a),
        Term::Binary(_, a, b) => closed(*a) && closed(*b),
        _ => true,
    }
}

/// Every variable in the expression has an index below `count`.
pub open spec fn names_all(t: Term, count: nat) -> bool
    decreases t,
{
    match t {
        Term::Var(v) => v < count,
        Term::Unary(_, a) => names_all(*a, count),
        Term::Binary(_, a, b) => names_all(*a, count) && names_all(*b, count),
        _ => true,
    }
}

/// Two readings that differ only in what registers and spill slots hold at
/// the start.
pub open spec fn same_but_start<V>(a: Algebra<V>, b: Algebra<V>) -> bool {
    &&& a.input == b.input
    &&& a.var == b.var
    &&& a.imm == b.imm
    &&& a.unary == b.unary
    &&& a.binary == b.binary
}

/// The value of a closed expression does not depend on what registers and
/// spill slots hold at the start.
pub proof fn lemma_eval_closed<V>(t: Term, a: Algebra<V>, b: Algebra<V>)
    requires
        closed(t),
        same_but_start(a, b),
    ensures
        eval(t, a) == eval(t, b),
    decreases t,
{
    match t {
        Term::Unary(_, x) => {
            lemma_eval_closed(*x, a, b);
        },
        Term::Binary(_, x, y) => {
            lemma_eval_closed(*x, a, b);
            lemma_eval_closed(*y, a, b);
        },
        _ => {},
    }
}

} // verus!
