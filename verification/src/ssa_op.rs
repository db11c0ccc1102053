//! Operations of the single-assignment tape.
use vstd::prelude::*;
use crate::op::{BinaryKind, Shape, Term, UnaryKind};
use crate::reg_op::RegOp;

verus! {

/// One operation over single-assignment slots.
///
/// The first field is the slot that the operation writes. Immediates are
/// stored as the bit pattern of a 32-bit IEEE-754 number.
#[derive(Clone, Copy, Debug, PartialEq, Eq, Structural)]
pub enum SsaOp {
    /// Reads one of the three coordinate axes.
    Input(u32, u8),
    /// Reads a named variable, by its index.
    Var(u32, u32),
    /// Writes an immediate.
    CopyImm(u32, u32),
    /// Negation of a slot.
    NegReg(u32, u32),
    /// Absolute value of a slot.
    AbsReg(u32, u32),
    /// Reciprocal of a slot.
    RecipReg(u32, u32),
    /// Square root of a slot.
    SqrtReg(u32, u32),
    /// Square of a slot.
    SquareReg(u32, u32),
    /// Sine of a slot.
    SinReg(u32, u32),
    /// Cosine of a slot.
    CosReg(u32, u32),
    /// Tangent of a slot.
    TanReg(u32, u32),
    /// Arcsine of a slot.
    AsinReg(u32, u32),
    /// Arccosine of a slot.
    AcosReg(u32, u32),
    /// Arctangent of a slot.
    AtanReg(u32, u32),
    /// Exponential of a slot.
    ExpReg(u32, u32),
    /// Natural logarithm of a slot.
    LnReg(u32, u32),
    /// Copy of a slot.
    CopyReg(u32, u32),
    /// Sum of two slots.
    AddRegReg(u32, u32, u32),
    /// Difference of two slots.
    SubRegReg(u32, u32, u32),
    /// Product of two slots.
    MulRegReg(u32, u32, u32),
    /// Quotient of two slots.
    DivRegReg(u32, u32, u32),
    /// Minimum of two slots.
    MinRegReg(u32, u32, u32),
    /// Maximum of two slots.
    MaxRegReg(u32, u32, u32),
    /// Sum of a slot and an immediate.
    AddRegImm(u32, u32, u32),
    /// Product of a slot and an immediate.
    MulRegImm(u32, u32, u32),
    /// A slot minus an immediate.
    SubRegImm(u32, u32, u32),
    /// An immediate minus a slot.
    SubImmReg(u32, u32, u32),
    /// A slot divided by an immediate.
    DivRegImm(u32, u32, u32),
    /// An immediate divided by a slot.
    DivImmReg(u32, u32, u32),
    /// Minimum of a slot and an immediate.
    MinRegImm(u32, u32, u32),
    /// Maximum of a slot and an immediate.
    MaxRegImm(u32, u32, u32),
}

impl SsaOp {
    /// The operation taken apart: what it computes, the slot it writes, and
    /// its first and second operand (zero where it has none).
    pub open spec fn parts(self) -> (Shape, u32, u32, u32) {
        match self {
            SsaOp::Input(out, axis) => (Shape::Input(axis), out, 0, 0),
            SsaOp::Var(out, var) => (Shape::Var(var), out, 0, 0),
            SsaOp::CopyImm(out, imm) => (Shape::Imm(imm), out, 0, 0),
            SsaOp::NegReg(out, arg) => (Shape::Unary(UnaryKind::Neg), out, arg, 0),
            SsaOp::AbsReg(out, arg) => (Shape::Unary(UnaryKind::Abs), out, arg, 0),
            SsaOp::RecipReg(out, arg) => (Shape::Unary(UnaryKind::Recip), out, arg, 0),
            SsaOp::SqrtReg(out, arg) => (Shape::Unary(UnaryKind::Sqrt), out, arg, 0),
            SsaOp::SquareReg(out, arg) => (Shape::Unary(UnaryKind::Square), out, arg, 0),
            SsaOp::SinReg(out, arg) => (Shape::Unary(UnaryKind::Sin), out, arg, 0),
            SsaOp::CosReg(out, arg) => (Shape::Unary(UnaryKind::Cos), out, arg, 0),
            SsaOp::TanReg(out, arg) => (Shape::Unary(UnaryKind::Tan), out, arg, 0),
            SsaOp::AsinReg(out, arg) => (Shape::Unary(UnaryKind::Asin), out, arg, 0),
            SsaOp::AcosReg(out, arg) => (Shape::Unary(UnaryKind::Acos), out, arg, 0),
            SsaOp::AtanReg(out, arg) => (Shape::Unary(UnaryKind::Atan), out, arg, 0),
            SsaOp::ExpReg(out, arg) => (Shape::Unary(UnaryKind::Exp), out, arg, 0),
            SsaOp::LnReg(out, arg) => (Shape::Unary(UnaryKind::Ln), out, arg, 0),
            SsaOp::CopyReg(out, arg) => (Shape::Copy, out, arg, 0),
            SsaOp::AddRegReg(out, lhs, rhs) => (Shape::Binary(BinaryKind::Add), out, lhs, rhs),
            SsaOp::SubRegReg(out, lhs, rhs) => (Shape::Binary(BinaryKind::Sub), out, lhs, rhs),
            SsaOp::MulRegReg(out, lhs, rhs) => (Shape::Binary(BinaryKind::Mul), out, lhs, rhs),
            SsaOp::DivRegReg(out, lhs, rhs) => (Shape::Binary(BinaryKind::Div), out, lhs, rhs),
            SsaOp::MinRegReg(out, lhs, rhs) => (Shape::Binary(BinaryKind::Min), out, lhs, rhs),
            SsaOp::MaxRegReg(out, lhs, rhs) => (Shape::Binary(BinaryKind::Max), out, lhs, rhs),
            SsaOp::AddRegImm(out, arg, imm) => (Shape::RegImm(BinaryKind::Add, imm), out, arg, 0),
            SsaOp::MulRegImm(out, arg, imm) => (Shape::RegImm(BinaryKind::Mul, imm), out, arg, 0),
            SsaOp::SubRegImm(out, arg, imm) => (Shape::RegImm(BinaryKind::Sub, imm), out, arg, 0),
            SsaOp::SubImmReg(out, arg, imm) => (Shape::ImmReg(BinaryKind::Sub, imm), out, arg, 0),
            SsaOp::DivRegImm(out, arg, imm) => (Shape::RegImm(BinaryKind::Div, imm), out, arg, 0),
            SsaOp::DivImmReg(out, arg, imm) => (Shape::ImmReg(BinaryKind::Div, imm), out, arg, 0),
            SsaOp::MinRegImm(out, arg, imm) => (Shape::RegImm(BinaryKind::Min, imm), out, arg, 0),
            SsaOp::MaxRegImm(out, arg, imm) => (Shape::RegImm(BinaryKind::Max, imm), out, arg, 0),
        }
    }

    /// What the operation computes.
    pub open spec fn shape(self) -> Shape {
        self.parts().0
    }

    /// The slot that the operation writes.
    pub open spec fn out(self) -> u32 {
        self.parts().1
    }

    /// The first operand.
    pub open spec fn lhs(self) -> u32 {
        self.parts().2
    }

    /// The second operand.
    pub open spec fn rhs(self) -> u32 {
        self.parts().3
    }

    /// True when the operation reads slot `s`.
    pub open spec fn reads(self, s: u32) -> bool {
        ||| self.shape().arity() >= 1 && self.lhs() == s
        ||| self.shape().arity() == 2 && self.rhs() == s
    }

    /// The same operation over other slots.
    pub open spec fn with_slots(self, o: u32, a: u32, b: u32) -> SsaOp {
        match self {
            SsaOp::Input(_, axis) => SsaOp::Input(o, axis),
            SsaOp::Var(_, var) => SsaOp::Var(o, var),
            SsaOp::CopyImm(_, imm) => SsaOp::CopyImm(o, imm),
            SsaOp::NegReg(_, _) => SsaOp::NegReg(o, a),
            SsaOp::AbsReg(_, _) => SsaOp::AbsReg(o, a),
            SsaOp::RecipReg(_, _) => SsaOp::RecipReg(o, a),
            SsaOp::SqrtReg(_, _) => SsaOp::SqrtReg(o, a),
            SsaOp::SquareReg(_, _) => SsaOp::SquareReg(o, a),
            SsaOp::SinReg(_, _) => SsaOp::SinReg(o, a),
            SsaOp::CosReg(_, _) => SsaOp::CosReg(o, a),
            SsaOp::TanReg(_, _) => SsaOp::TanReg(o, a),
            SsaOp::AsinReg(_, _) => SsaOp::AsinReg(o, a),
            SsaOp::AcosReg(_, _) => SsaOp::AcosReg(o, a),
            SsaOp::AtanReg(_, _) => SsaOp::AtanReg(o, a),
            SsaOp::ExpReg(_, _) => SsaOp::ExpReg(o, a),
            SsaOp::LnReg(_, _) => SsaOp::LnReg(o, a),
            SsaOp::CopyReg(_, _) => SsaOp::CopyReg(o, a),
            SsaOp::AddRegReg(_, _, _) => SsaOp::AddRegReg(o, a, b),
            SsaOp::SubRegReg(_, _, _) => SsaOp::SubRegReg(o, a, b),
            SsaOp::MulRegReg(_, _, _) => SsaOp::MulRegReg(o, a, b),
            SsaOp::DivRegReg(_, _, _) => SsaOp::DivRegReg(o, a, b),
            SsaOp::MinRegReg(_, _, _) => SsaOp::MinRegReg(o, a, b),
            SsaOp::MaxRegReg(_, _, _) => SsaOp::MaxRegReg(o, a, b),
            SsaOp::AddRegImm(_, _, imm) => SsaOp::AddRegImm(o, a, imm),
            SsaOp::MulRegImm(_, _, imm) => SsaOp::MulRegImm(o, a, imm),
            SsaOp::SubRegImm(_, _, imm) => SsaOp::SubRegImm(o, a, imm),
            SsaOp::SubImmReg(_, _, imm) => SsaOp::SubImmReg(o, a, imm),
            SsaOp::DivRegImm(_, _, imm) => SsaOp::DivRegImm(o, a, imm),
            SsaOp::DivImmReg(_, _, imm) => SsaOp::DivImmReg(o, a, imm),
            SsaOp::MinRegImm(_, _, imm) => SsaOp::MinRegImm(o, a, imm),
            SsaOp::MaxRegImm(_, _, imm) => SsaOp::MaxRegImm(o, a, imm),
        }
    }

    /// The same operation over registers.
    pub open spec fn lower(self, o: u8, a: u8, b: u8) -> RegOp {
        match self {
            SsaOp::Input(_, axis) => RegOp::Input(o, axis),
            SsaOp::Var(_, var) => RegOp::Var(o, var),
            SsaOp::CopyImm(_, imm) => RegOp::CopyImm(o, imm),
            SsaOp::NegReg(_, _) => RegOp::NegReg(o, a),
            SsaOp::AbsReg(_, _) => RegOp::AbsReg(o, a),
            SsaOp::RecipReg(_, _) => RegOp::RecipReg(o, a),
            SsaOp::SqrtReg(_, _) => RegOp::SqrtReg(o, a),
            SsaOp::SquareReg(_, _) => RegOp::SquareReg(o, a),
            SsaOp::SinReg(_, _) => RegOp::SinReg(o, a),
            SsaOp::CosReg(_, _) => RegOp::CosReg(o, a),
            SsaOp::TanReg(_, _) => RegOp::TanReg(o, a),
            SsaOp::AsinReg(_, _) => RegOp::AsinReg(o, a),
            SsaOp::AcosReg(_, _) => RegOp::AcosReg(o, a),
            SsaOp::AtanReg(_, _) => RegOp::AtanReg(o, a),
            SsaOp::ExpReg(_, _) => RegOp::ExpReg(o, a),
            SsaOp::LnReg(_, _) => RegOp::LnReg(o, a),
            SsaOp::CopyReg(_, _) => RegOp::CopyReg(o, a),
            SsaOp::AddRegReg(_, _, _) => RegOp::AddRegReg(o, a, b),
            SsaOp::SubRegReg(_, _, _) => RegOp::SubRegReg(o, a, b),
            SsaOp::MulRegReg(_, _, _) => RegOp::MulRegReg(o, a, b),
            SsaOp::DivRegReg(_, _, _) => RegOp::DivRegReg(o, a, b),
            SsaOp::MinRegReg(_, _, _) => RegOp::MinRegReg(o, a, b),
            SsaOp::MaxRegReg(_, _, _) => RegOp::MaxRegReg(o, a, b),
            SsaOp::AddRegImm(_, _, imm) => RegOp::AddRegImm(o, a, imm),
            SsaOp::MulRegImm(_, _, imm) => RegOp::MulRegImm(o, a, imm),
            SsaOp::SubRegImm(_, _, imm) => RegOp::SubRegImm(o, a, imm),
            SsaOp::SubImmReg(_, _, imm) => RegOp::SubImmReg(o, a, imm),
            SsaOp::DivRegImm(_, _, imm) => RegOp::DivRegImm(o, a, imm),
            SsaOp::DivImmReg(_, _, imm) => RegOp::DivImmReg(o, a, imm),
            SsaOp::MinRegImm(_, _, imm) => RegOp::MinRegImm(o, a, imm),
            SsaOp::MaxRegImm(_, _, imm) => RegOp::MaxRegImm(o, a, imm),
        }
    }

    /// The environment after the operation has run in `env`.
    pub open spec fn step(self, env: Map<u32, Term>) -> Map<u32, Term> {
        env.insert(self.out(), self.shape().apply(env[self.lhs()], env[self.rhs()]))
    }

    /// Takes the operation apart.
    pub fn decompose(&self) -> (r: (Shape, u32, u32, u32))
        ensures
            r == self.parts(),
    {
        match *self {
            SsaOp::Input(out, axis) => (Shape::Input(axis), out, 0, 0),
            SsaOp::Var(out, var) => (Shape::Var(var), out, 0, 0),
            SsaOp::CopyImm(out, imm) => (Shape::Imm(imm), out, 0, 0),
            SsaOp::NegReg(out, arg) => (Shape::Unary(UnaryKind::Neg), out, arg, 0),
            SsaOp::AbsReg(out, arg) => (Shape::Unary(UnaryKind::Abs), out, arg, 0),
            SsaOp::RecipReg(out, arg) => (Shape::Unary(UnaryKind::Recip), out, arg, 0),
            SsaOp::SqrtReg(out, arg) => (Shape::Unary(UnaryKind::Sqrt), out, arg, 0),
            SsaOp::SquareReg(out, arg) => (Shape::Unary(UnaryKind::Square), out, arg, 0),
            SsaOp::SinReg(out, arg) => (Shape::Unary(UnaryKind::Sin), out, arg, 0),
            SsaOp::CosReg(out, arg) => (Shape::Unary(UnaryKind::Cos), out, arg, 0),
            SsaOp::TanReg(out, arg) => (Shape::Unary(UnaryKind::Tan), out, arg, 0),
            SsaOp::AsinReg(out, arg) => (Shape::Unary(UnaryKind::Asin), out, arg, 0),
            SsaOp::AcosReg(out, arg) => (Shape::Unary(UnaryKind::Acos), out, arg, 0),
            SsaOp::AtanReg(out, arg) => (Shape::Unary(UnaryKind::Atan), out, arg, 0),
            SsaOp::ExpReg(out, arg) => (Shape::Unary(UnaryKind::Exp), out, arg, 0),
            SsaOp::LnReg(out, arg) => (Shape::Unary(UnaryKind::Ln), out, arg, 0),
            SsaOp::CopyReg(out, arg) => (Shape::Copy, out, arg, 0),
            SsaOp::AddRegReg(out, lhs, rhs) => (Shape::Binary(BinaryKind::Add), out, lhs, rhs),
            SsaOp::SubRegReg(out, lhs, rhs) => (Shape::Binary(BinaryKind::Sub), out, lhs, rhs),
            SsaOp::MulRegReg(out, lhs, rhs) => (Shape::Binary(BinaryKind::Mul), out, lhs, rhs),
            SsaOp::DivRegReg(out, lhs, rhs) => (Shape::Binary(BinaryKind::Div), out, lhs, rhs),
            SsaOp::MinRegReg(out, lhs, rhs) => (Shape::Binary(BinaryKind::Min), out, lhs, rhs),
            SsaOp::MaxRegReg(out, lhs, rhs) => (Shape::Binary(BinaryKind::Max), out, lhs, rhs),
            SsaOp::AddRegImm(out, arg, imm) => (Shape::RegImm(BinaryKind::Add, imm), out, arg, 0),
            SsaOp::MulRegImm(out, arg, imm) => (Shape::RegImm(BinaryKind::Mul, imm), out, arg, 0),
            SsaOp::SubRegImm(out, arg, imm) => (Shape::RegImm(BinaryKind::Sub, imm), out, arg, 0),
            SsaOp::SubImmReg(out, arg, imm) => (Shape::ImmReg(BinaryKind::Sub, imm), out, arg, 0),
            SsaOp::DivRegImm(out, arg, imm) => (Shape::RegImm(BinaryKind::Div, imm), out, arg, 0),
            SsaOp::DivImmReg(out, arg, imm) => (Shape::ImmReg(BinaryKind::Div, imm), out, arg, 0),
            SsaOp::MinRegImm(out, arg, imm) => (Shape::RegImm(BinaryKind::Min, imm), out, arg, 0),
            SsaOp::MaxRegImm(out, arg, imm) => (Shape::RegImm(BinaryKind::Max, imm), out, arg, 0),
        }
    }

    /// Returns the slot that the operation writes.
    pub fn output(&self) -> (r: u32)
        ensures
            r == self.out(),
    {
        self.decompose().1
    }

    /// Tells whether the operation is a `min` or a `max`.
    pub fn has_choice(&self) -> (r: bool)
        ensures
            r == self.shape().has_choice(),
    {
        self.decompose().0.is_choice()
    }

    /// Rewrites the operation over the slots `o`, `a` and `b`.
    pub fn renamed(&self, o: u32, a: u32, b: u32) -> (r: SsaOp)
        ensures
            r == self.with_slots(o, a, b),
    {
        match *self {
            SsaOp::Input(_, axis) => SsaOp::Input(o, axis),
            SsaOp::Var(_, var) => SsaOp::Var(o, var),
            SsaOp::CopyImm(_, imm) => SsaOp::CopyImm(o, imm),
            SsaOp::NegReg(_, _) => SsaOp::NegReg(o, a),
            SsaOp::AbsReg(_, _) => SsaOp::AbsReg(o, a),
            SsaOp::RecipReg(_, _) => SsaOp::RecipReg(o, a),
            SsaOp::SqrtReg(_, _) => SsaOp::SqrtReg(o, a),
            SsaOp::SquareReg(_, _) => SsaOp::SquareReg(o, a),
            SsaOp::SinReg(_, _) => SsaOp::SinReg(o, a),
            SsaOp::CosReg(_, _) => SsaOp::CosReg(o, a),
            SsaOp::TanReg(_, _) => SsaOp::TanReg(o, a),
            SsaOp::AsinReg(_, _) => SsaOp::AsinReg(o, a),
            SsaOp::AcosReg(_, _) => SsaOp::AcosReg(o, a),
            SsaOp::AtanReg(_, _) => SsaOp::AtanReg(o, a),
            SsaOp::ExpReg(_, _) => SsaOp::ExpReg(o, a),
            SsaOp::LnReg(_, _) => SsaOp::LnReg(o, a),
            SsaOp::CopyReg(_, _) => SsaOp::CopyReg(o, a),
            SsaOp::AddRegReg(_, _, _) => SsaOp::AddRegReg(o, a, b),
            SsaOp::SubRegReg(_, _, _) => SsaOp::SubRegReg(o, a, b),
            SsaOp::MulRegReg(_, _, _) => SsaOp::MulRegReg(o, a, b),
            SsaOp::DivRegReg(_, _, _) => SsaOp::DivRegReg(o, a, b),
            SsaOp::MinRegReg(_, _, _) => SsaOp::MinRegReg(o, a, b),
            SsaOp::MaxRegReg(_, _, _) => SsaOp::MaxRegReg(o, a, b),
            SsaOp::AddRegImm(_, _, imm) => SsaOp::AddRegImm(o, a, imm),
            SsaOp::MulRegImm(_, _, imm) => SsaOp::MulRegImm(o, a, imm),
            SsaOp::SubRegImm(_, _, imm) => SsaOp::SubRegImm(o, a, imm),
            SsaOp::SubImmReg(_, _, imm) => SsaOp::SubImmReg(o, a, imm),
            SsaOp::DivRegImm(_, _, imm) => SsaOp::DivRegImm(o, a, imm),
            SsaOp::DivImmReg(_, _, imm) => SsaOp::DivImmReg(o, a, imm),
            SsaOp::MinRegImm(_, _, imm) => SsaOp::MinRegImm(o, a, imm),
            SsaOp::MaxRegImm(_, _, imm) => SsaOp::MaxRegImm(o, a, imm),
        }
    }

    /// Rewrites the operation over the registers `o`, `a` and `b`.
    pub fn to_reg(&self, o: u8, a: u8, b: u8) -> (r: RegOp)
        ensures
            r == self.lower(o, a, b),
    {
        match *self {
            SsaOp::Input(_, axis) => RegOp::Input(o, axis),
            SsaOp::Var(_, var) => RegOp::Var(o, var),
            SsaOp::CopyImm(_, imm) => RegOp::CopyImm(o, imm),
            SsaOp::NegReg(_, _) => RegOp::NegReg(o, a),
            SsaOp::AbsReg(_, _) => RegOp::AbsReg(o, a),
            SsaOp::RecipReg(_, _) => RegOp::RecipReg(o, a),
            SsaOp::SqrtReg(_, _) => RegOp::SqrtReg(o, a),
            SsaOp::SquareReg(_, _) => RegOp::SquareReg(o, a),
            SsaOp::SinReg(_, _) => RegOp::SinReg(o, a),
            SsaOp::CosReg(_, _) => RegOp::CosReg(o, a),
            SsaOp::TanReg(_, _) => RegOp::TanReg(o, a),
            SsaOp::AsinReg(_, _) => RegOp::AsinReg(o, a),
            SsaOp::AcosReg(_, _) => RegOp::AcosReg(o, a),
            SsaOp::AtanReg(_, _) => RegOp::AtanReg(o, a),
            SsaOp::ExpReg(_, _) => RegOp::ExpReg(o, a),
            SsaOp::LnReg(_, _) => RegOp::LnReg(o, a),
            SsaOp::CopyReg(_, _) => RegOp::CopyReg(o, a),
            SsaOp::AddRegReg(_, _, _) => RegOp::AddRegReg(o, a, b),
            SsaOp::SubRegReg(_, _, _) => RegOp::SubRegReg(o, a, b),
            SsaOp::MulRegReg(_, _, _) => RegOp::MulRegReg(o, a, b),
            SsaOp::DivRegReg(_, _, _) => RegOp::DivRegReg(o, a, b),
            SsaOp::MinRegReg(_, _, _) => RegOp::MinRegReg(o, a, b),
            SsaOp::MaxRegReg(_, _, _) => RegOp::MaxRegReg(o, a, b),
            SsaOp::AddRegImm(_, _, imm) => RegOp::AddRegImm(o, a, imm),
            SsaOp::MulRegImm(_, _, imm) => RegOp::MulRegImm(o, a, imm),
            SsaOp::SubRegImm(_, _, imm) => RegOp::SubRegImm(o, a, imm),
            SsaOp::SubImmReg(_, _, imm) => RegOp::SubImmReg(o, a, imm),
            SsaOp::DivRegImm(_, _, imm) => RegOp::DivRegImm(o, a, imm),
            SsaOp::DivImmReg(_, _, imm) => RegOp::DivImmReg(o, a, imm),
            SsaOp::MinRegImm(_, _, imm) => RegOp::MinRegImm(o, a, imm),
            SsaOp::MaxRegImm(_, _, imm) => RegOp::MaxRegImm(o, a, imm),
        }
    }
}

impl SsaOp {
    /// The operation that applies `kind` to the slot `arg`.
    pub open spec fn of_unary(kind: UnaryKind, out: u32, arg: u32) -> SsaOp {
        match kind {
            UnaryKind::Neg => SsaOp::NegReg(out, arg),
            UnaryKind::Abs => SsaOp::AbsReg(out, arg),
            UnaryKind::Recip => SsaOp::RecipReg(out, arg),
            UnaryKind::Sqrt => SsaOp::SqrtReg(out, arg),
            UnaryKind::Square => SsaOp::SquareReg(out, arg),
            UnaryKind::Sin => SsaOp::SinReg(out, arg),
            UnaryKind::Cos => SsaOp::CosReg(out, arg),
            UnaryKind::Tan => SsaOp::TanReg(out, arg),
            UnaryKind::Asin => SsaOp::AsinReg(out, arg),
            UnaryKind::Acos => SsaOp::AcosReg(out, arg),
            UnaryKind::Atan => SsaOp::AtanReg(out, arg),
            UnaryKind::Exp => SsaOp::ExpReg(out, arg),
            UnaryKind::Ln => SsaOp::LnReg(out, arg),
        }
    }

    /// The operation that applies `kind` to the slots `lhs` and `rhs`.
    pub open spec fn of_binary(kind: BinaryKind, out: u32, lhs: u32, rhs: u32) -> SsaOp {
        match kind {
            BinaryKind::Add => SsaOp::AddRegReg(out, lhs, rhs),
            BinaryKind::Sub => SsaOp::SubRegReg(out, lhs, rhs),
            BinaryKind::Mul => SsaOp::MulRegReg(out, lhs, rhs),
            BinaryKind::Div => SsaOp::DivRegReg(out, lhs, rhs),
            BinaryKind::Min => SsaOp::MinRegReg(out, lhs, rhs),
            BinaryKind::Max => SsaOp::MaxRegReg(out, lhs, rhs),
        }
    }

    /// The operation that applies `kind` to the slot `arg` and the
    /// immediate `imm`, in that order.
    pub open spec fn of_reg_imm(kind: BinaryKind, out: u32, arg: u32, imm: u32) -> SsaOp {
        match kind {
            BinaryKind::Add => SsaOp::AddRegImm(out, arg, imm),
            BinaryKind::Sub => SsaOp::SubRegImm(out, arg, imm),
            BinaryKind::Mul => SsaOp::MulRegImm(out, arg, imm),
            BinaryKind::Div => SsaOp::DivRegImm(out, arg, imm),
            BinaryKind::Min => SsaOp::MinRegImm(out, arg, imm),
            BinaryKind::Max => SsaOp::MaxRegImm(out, arg, imm),
        }
    }

    /// The operation that applies `kind` to the immediate `imm` and the
    /// slot `arg`. Where the operands of `kind` may change places, this is
    /// the operation with the immediate on the right.
    pub open spec fn of_imm_reg(kind: BinaryKind, out: u32, arg: u32, imm: u32) -> SsaOp {
        match kind {
            BinaryKind::Add => SsaOp::AddRegImm(out, arg, imm),
            BinaryKind::Sub => SsaOp::SubImmReg(out, arg, imm),
            BinaryKind::Mul => SsaOp::MulRegImm(out, arg, imm),
            BinaryKind::Div => SsaOp::DivImmReg(out, arg, imm),
            BinaryKind::Min => SsaOp::MinRegImm(out, arg, imm),
            BinaryKind::Max => SsaOp::MaxRegImm(out, arg, imm),
        }
    }

    /// Builds the operation that applies `kind` to the slot `arg`.
    pub fn unary(kind: UnaryKind, out: u32, arg: u32) -> (r: SsaOp)
        ensures
            r == SsaOp::of_unary(kind, out, arg),
    {
        match kind {
            UnaryKind::Neg => SsaOp::NegReg(out, arg),
            UnaryKind::Abs => SsaOp::AbsReg(out, arg),
            UnaryKind::Recip => SsaOp::RecipReg(out, arg),
            UnaryKind::Sqrt => SsaOp::SqrtReg(out, arg),
            UnaryKind::Square => SsaOp::SquareReg(out, arg),
            UnaryKind::Sin => SsaOp::SinReg(out, arg),
            UnaryKind::Cos => SsaOp::CosReg(out, arg),
            UnaryKind::Tan => SsaOp::TanReg(out, arg),
            UnaryKind::Asin => SsaOp::AsinReg(out, arg),
            UnaryKind::Acos => SsaOp::AcosReg(out, arg),
            UnaryKind::Atan => SsaOp::AtanReg(out, arg),
            UnaryKind::Exp => SsaOp::ExpReg(out, arg),
            UnaryKind::Ln => SsaOp::LnReg(out, arg),
        }
    }

    /// Builds the operation that applies `kind` to the slots `lhs` and
    /// `rhs`.
    pub fn binary(kind: BinaryKind, out: u32, lhs: u32, rhs: u32) -> (r: SsaOp)
        ensures
            r == SsaOp::of_binary(kind, out, lhs, rhs),
    {
        match kind {
            BinaryKind::Add => SsaOp::AddRegReg(out, lhs, rhs),
            BinaryKind::Sub => SsaOp::SubRegReg(out, lhs, rhs),
            BinaryKind::Mul => SsaOp::MulRegReg(out, lhs, rhs),
            BinaryKind::Div => SsaOp::DivRegReg(out, lhs, rhs),
            BinaryKind::Min => SsaOp::MinRegReg(out, lhs, rhs),
            BinaryKind::Max => SsaOp::MaxRegReg(out, lhs, rhs),
        }
    }

    /// Builds the operation that applies `kind` to the slot `arg` and the
    /// immediate `imm`.
    pub fn reg_imm(kind: BinaryKind, out: u32, arg: u32, imm: u32) -> (r: SsaOp)
        ensures
            r == SsaOp::of_reg_imm(kind, out, arg, imm),
    {
        match kind {
            BinaryKind::Add => SsaOp::AddRegImm(out, arg, imm),
            BinaryKind::Sub => SsaOp::SubRegImm(out, arg, imm),
            BinaryKind::Mul => SsaOp::MulRegImm(out, arg, imm),
            BinaryKind::Div => SsaOp::DivRegImm(out, arg, imm),
            BinaryKind::Min => SsaOp::MinRegImm(out, arg, imm),
            BinaryKind::Max => SsaOp::MaxRegImm(out, arg, imm),
        }
    }

    /// Builds the operation that applies `kind` to the immediate `imm` and
    /// the slot `arg`.
    pub fn imm_reg(kind: BinaryKind, out: u32, arg: u32, imm: u32) -> (r: SsaOp)
        ensures
            r == SsaOp::of_imm_reg(kind, out, arg, imm),
    {
        match kind {
            BinaryKind::Add => SsaOp::AddRegImm(out, arg, imm),
            BinaryKind::Sub => SsaOp::SubImmReg(out, arg, imm),
            BinaryKind::Mul => SsaOp::MulRegImm(out, arg, imm),
            BinaryKind::Div => SsaOp::DivImmReg(out, arg, imm),
            BinaryKind::Min => SsaOp::MinRegImm(out, arg, imm),
            BinaryKind::Max => SsaOp::MaxRegImm(out, arg, imm),
        }
    }
}

/// What the operations built from kinds compute, write and read.
pub proof fn lemma_built(uk: UnaryKind, bk: BinaryKind, out: u32, a: u32, b: u32, imm: u32)
    ensures
        SsaOp::of_unary(uk, out, a).parts() == (Shape::Unary(uk), out, a, 0u32),
        SsaOp::of_binary(bk, out, a, b).parts() == (Shape::Binary(bk), out, a, b),
        SsaOp::of_reg_imm(bk, out, a, imm).parts() == (Shape::RegImm(bk, imm), out, a, 0u32),
        SsaOp::of_imm_reg(bk, out, a, imm).parts() == (
            if bk.commutes() {
                Shape::RegImm(bk, imm)
            } else {
                Shape::ImmReg(bk, imm)
            },
            out,
            a,
            0u32,
        ),
{
}

/// The environment after a tape has run in `env`. A tape is stored with its
/// last operation first, so the run starts at the far end.
pub open spec fn run_slots(ops: Seq<SsaOp>, env: Map<u32, Term>) -> Map<u32, Term>
    decreases ops.len(),
{
    if ops.len() == 0 {
        env
    } else {
        run_slots(ops.drop_last(), ops.last().step(env))
    }
}

/// An operation appended to a tape runs first.
pub proof fn lemma_run_slots_push(ops: Seq<SsaOp>, op: SsaOp, env: Map<u32, Term>)
    ensures
        run_slots(ops.push(op), env) == run_slots(ops, op.step(env)),
{
    assert(ops.push(op).drop_last() == ops);
}

/// What the operations of a tape compute, in stored order.
pub open spec fn shapes(ops: Seq<SsaOp>) -> Seq<Shape> {
    Seq::new(ops.len(), |i: int| ops[i].shape())
}

/// Renaming keeps what an operation computes and puts the given slots in
/// the places that it uses.
pub proof fn lemma_with_slots(op: SsaOp, o: u32, a: u32, b: u32)
    ensures
        op.with_slots(o, a, b).shape() == op.shape(),
        op.with_slots(o, a, b).out() == o,
        op.shape().arity() >= 1 ==> op.with_slots(o, a, b).lhs() == a,
        op.shape().arity() == 2 ==> op.with_slots(o, a, b).rhs() == b,
{
}

/// Lowering keeps what an operation computes and puts the given registers
/// in the places that it uses.
pub proof fn lemma_lower(op: SsaOp, o: u8, a: u8, b: u8)
    ensures
        op.lower(o, a, b).form() matches crate::reg_op::RegForm::Compute(sh, ro, ra, rb) && {
            &&& sh == op.shape()
            &&& ro == o
            &&& op.shape().arity() >= 1 ==> ra == a
            &&& op.shape().arity() == 2 ==> rb == b
        },
{
}

} // verus!
