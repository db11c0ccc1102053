//! Operations of the register tape.
use vstd::prelude::*;
use crate::op::{eval, lemma_eval_apply, Algebra, BinaryKind, Shape, Term, UnaryKind};

verus! {

/// One operation over registers and spill slots.
///
/// The first field of a computing operation is the register that it
/// writes. Immediates are stored as the bit pattern of a 32-bit IEEE-754
/// number.
#[derive(Clone, Copy, Debug, PartialEq, Eq, Structural)]
pub enum RegOp {
    /// Reads one of the three coordinate axes.
    Input(u8, u8),
    /// Reads a named variable, by its index.
    Var(u8, u32),
    /// Writes an immediate.
    CopyImm(u8, u32),
    /// Negation of a register.
    NegReg(u8, u8),
    /// Absolute value of a register.
    AbsReg(u8, u8),
    /// Reciprocal of a register.
    RecipReg(u8, u8),
    /// Square root of a register.
    SqrtReg(u8, u8),
    /// Square of a register.
    SquareReg(u8, u8),
    /// Sine of a register.
    SinReg(u8, u8),
    /// Cosine of a register.
    CosReg(u8, u8),
    /// Tangent of a register.
    TanReg(u8, u8),
    /// Arcsine of a register.
    AsinReg(u8, u8),
    /// Arccosine of a register.
    AcosReg(u8, u8),
    /// Arctangent of a register.
    AtanReg(u8, u8),
    /// Exponential of a register.
    ExpReg(u8, u8),
    /// Natural logarithm of a register.
    LnReg(u8, u8),
    /// Copy of a register.
    CopyReg(u8, u8),
    /// Sum of two registers.
    AddRegReg(u8, u8, u8),
    /// Difference of two registers.
    SubRegReg(u8, u8, u8),
    /// Product of two registers.
    MulRegReg(u8, u8, u8),
    /// Quotient of two registers.
    DivRegReg(u8, u8, u8),
    /// Minimum of two registers.
    MinRegReg(u8, u8, u8),
    /// Maximum of two registers.
    MaxRegReg(u8, u8, u8),
    /// Sum of a register and an immediate.
    AddRegImm(u8, u8, u32),
    /// Product of a register and an immediate.
    MulRegImm(u8, u8, u32),
    /// A register minus an immediate.
    SubRegImm(u8, u8, u32),
    /// An immediate minus a register.
    SubImmReg(u8, u8, u32),
    /// A register divided by an immediate.
    DivRegImm(u8, u8, u32),
    /// An immediate divided by a register.
    DivImmReg(u8, u8, u32),
    /// Minimum of a register and an immediate.
    MinRegImm(u8, u8, u32),
    /// Maximum of a register and an immediate.
    MaxRegImm(u8, u8, u32),
    /// Reads a spill slot into a register: `Load(register, slot)`.
    Load(u8, u32),
    /// Writes a register to a spill slot: `Store(slot, register)`.
    Store(u32, u8),
}

/// Where spill slot `m` stands among the contents that a tape runs on:
/// after the 256 places of the registers.
pub open spec fn spill(m: u32) -> int {
    256 + m
}

/// A register operation taken apart.
pub enum RegForm {
    /// Computes `shape` from the second and third register into the first.
    Compute(Shape, u8, u8, u8),
    /// Copies a spill slot into a register.
    Load(u8, u32),
    /// Copies a register into a spill slot.
    Store(u32, u8),
}

impl RegOp {
    /// The operation taken apart.
    pub open spec fn form(self) -> RegForm {
        match self {
            RegOp::Input(out, axis) => RegForm::Compute(Shape::Input(axis), out, 0, 0),
            RegOp::Var(out, var) => RegForm::Compute(Shape::Var(var), out, 0, 0),
            RegOp::CopyImm(out, imm) => RegForm::Compute(Shape::Imm(imm), out, 0, 0),
            RegOp::NegReg(out, arg) => RegForm::Compute(Shape::Unary(UnaryKind::Neg), out, arg, 0),
            RegOp::AbsReg(out, arg) => RegForm::Compute(Shape::Unary(UnaryKind::Abs), out, arg, 0),
            RegOp::RecipReg(out, arg) => RegForm::Compute(Shape::Unary(UnaryKind::Recip), out, arg, 0),
            RegOp::SqrtReg(out, arg) => RegForm::Compute(Shape::Unary(UnaryKind::Sqrt), out, arg, 0),
            RegOp::SquareReg(out, arg) => RegForm::Compute(Shape::Unary(UnaryKind::Square), out, arg, 0),
            RegOp::SinReg(out, arg) => RegForm::Compute(Shape::Unary(UnaryKind::Sin), out, arg, 0),
            RegOp::CosReg(out, arg) => RegForm::Compute(Shape::Unary(UnaryKind::Cos), out, arg, 0),
            RegOp::TanReg(out, arg) => RegForm::Compute(Shape::Unary(UnaryKind::Tan), out, arg, 0),
            RegOp::AsinReg(out, arg) => RegForm::Compute(Shape::Unary(UnaryKind::Asin), out, arg, 0),
            RegOp::AcosReg(out, arg) => RegForm::Compute(Shape::Unary(UnaryKind::Acos), out, arg, 0),
            RegOp::AtanReg(out, arg) => RegForm::Compute(Shape::Unary(UnaryKind::Atan), out, arg, 0),
            RegOp::ExpReg(out, arg) => RegForm::Compute(Shape::Unary(UnaryKind::Exp), out, arg, 0),
            RegOp::LnReg(out, arg) => RegForm::Compute(Shape::Unary(UnaryKind::Ln), out, arg, 0),
            RegOp::CopyReg(out, arg) => RegForm::Compute(Shape::Copy, out, arg, 0),
            RegOp::AddRegReg(out, lhs, rhs) => RegForm::Compute(Shape::Binary(BinaryKind::Add), out, lhs, rhs),
            RegOp::SubRegReg(out, lhs, rhs) => RegForm::Compute(Shape::Binary(BinaryKind::Sub), out, lhs, rhs),
            RegOp::MulRegReg(out, lhs, rhs) => RegForm::Compute(Shape::Binary(BinaryKind::Mul), out, lhs, rhs),
            RegOp::DivRegReg(out, lhs, rhs) => RegForm::Compute(Shape::Binary(BinaryKind::Div), out, lhs, rhs),
            RegOp::MinRegReg(out, lhs, rhs) => RegForm::Compute(Shape::Binary(BinaryKind::Min), out, lhs, rhs),
            RegOp::MaxRegReg(out, lhs, rhs) => RegForm::Compute(Shape::Binary(BinaryKind::Max), out, lhs, rhs),
            RegOp::AddRegImm(out, arg, imm) => RegForm::Compute(Shape::RegImm(BinaryKind::Add, imm), out, arg, 0),
            RegOp::MulRegImm(out, arg, imm) => RegForm::Compute(Shape::RegImm(BinaryKind::Mul, imm), out, arg, 0),
            RegOp::SubRegImm(out, arg, imm) => RegForm::Compute(Shape::RegImm(BinaryKind::Sub, imm), out, arg, 0),
            RegOp::SubImmReg(out, arg, imm) => RegForm::Compute(Shape::ImmReg(BinaryKind::Sub, imm), out, arg, 0),
            RegOp::DivRegImm(out, arg, imm) => RegForm::Compute(Shape::RegImm(BinaryKind::Div, imm), out, arg, 0),
            RegOp::DivImmReg(out, arg, imm) => RegForm::Compute(Shape::ImmReg(BinaryKind::Div, imm), out, arg, 0),
            RegOp::MinRegImm(out, arg, imm) => RegForm::Compute(Shape::RegImm(BinaryKind::Min, imm), out, arg, 0),
            RegOp::MaxRegImm(out, arg, imm) => RegForm::Compute(Shape::RegImm(BinaryKind::Max, imm), out, arg, 0),
            RegOp::Load(reg, mem) => RegForm::Load(reg, mem),
            RegOp::Store(mem, reg) => RegForm::Store(mem, reg),
        }
    }

    /// The contents of registers and spill slots after the operation has
    /// run on the contents `s`. A register stands at its own number, and
    /// spill slot `m` at `spill(m)`.
    pub open spec fn step(self, s: Map<int, Term>) -> Map<int, Term> {
        match self.form() {
            RegForm::Compute(shape, out, a, b) => s.insert(
                out as int,
                shape.apply(s[a as int], s[b as int]),
            ),
            RegForm::Load(reg, mem) => s.insert(reg as int, s[spill(mem)]),
            RegForm::Store(mem, reg) => s.insert(spill(mem), s[reg as int]),
        }
    }

    /// True when every register that the operation names is below `limit`
    /// and every spill slot that it names is below `slots`.
    pub open spec fn within(self, limit: int, slots: int) -> bool {
        match self.form() {
            RegForm::Compute(shape, out, a, b) => {
                &&& out < limit
                &&& shape.arity() >= 1 ==> a < limit
                &&& shape.arity() == 2 ==> b < limit
            },
            RegForm::Load(reg, mem) => reg < limit && mem < slots,
            RegForm::Store(mem, reg) => reg < limit && mem < slots,
        }
    }
}

/// The contents after a tape has run on the contents `s`. A tape is stored
/// with its last operation first, so the run starts at the far end.
pub open spec fn run_regs(ops: Seq<RegOp>, s: Map<int, Term>) -> Map<int, Term>
    decreases ops.len(),
{
    if ops.len() == 0 {
        s
    } else {
        run_regs(ops.drop_last(), ops.last().step(s))
    }
}

/// An operation appended to a tape runs first.
pub proof fn lemma_run_regs_push(ops: Seq<RegOp>, op: RegOp, s: Map<int, Term>)
    ensures
        run_regs(ops.push(op), s) == run_regs(ops, op.step(s)),
{
    assert(ops.push(op).drop_last() == ops);
}

/// What the computing operations of a tape compute, in stored order,
/// without the loads and stores between them.
pub open spec fn skeleton(code: Seq<RegOp>) -> Seq<Shape>
    decreases code.len(),
{
    if code.len() == 0 {
        Seq::empty()
    } else {
        match code.last().form() {
            RegForm::Compute(shape, _, _, _) => skeleton(code.drop_last()).push(shape),
            _ => skeleton(code.drop_last()),
        }
    }
}

/// An operation appended to a tape adds its shape to the skeleton if it
/// computes, and nothing if it loads or stores.
pub proof fn lemma_skeleton_push(code: Seq<RegOp>, op: RegOp)
    ensures
        skeleton(code.push(op)) == match op.form() {
            RegForm::Compute(shape, _, _, _) => skeleton(code).push(shape),
            _ => skeleton(code),
        },
{
    assert(code.push(op).drop_last() == code);
}

/// A tape holds at least as many operations as its skeleton.
pub proof fn lemma_skeleton_len(code: Seq<RegOp>)
    ensures
        skeleton(code).len() <= code.len(),
    decreases code.len(),
{
    if code.len() > 0 {
        lemma_skeleton_len(code.drop_last());
    }
}

impl RegOp {
    /// The values in registers and spill slots after the operation has run
    /// on the values `s`, under the reading `alg`.
    pub open spec fn perform<V>(self, alg: Algebra<V>, s: Map<int, V>) -> Map<int, V> {
        match self.form() {
            RegForm::Compute(shape, out, a, b) => s.insert(
                out as int,
                shape.compute(alg, s[a as int], s[b as int]),
            ),
            RegForm::Load(reg, mem) => s.insert(reg as int, s[spill(mem)]),
            RegForm::Store(mem, reg) => s.insert(spill(mem), s[reg as int]),
        }
    }
}

/// The values after a tape has run on the values `s` under the reading
/// `alg`: what an evaluator computes that starts at the far end of the
/// tape.
pub open spec fn exec_regs<V>(ops: Seq<RegOp>, alg: Algebra<V>, s: Map<int, V>) -> Map<int, V>
    decreases ops.len(),
{
    if ops.len() == 0 {
        s
    } else {
        exec_regs(ops.drop_last(), alg, ops.last().perform(alg, s))
    }
}

/// The contents before a tape runs, written as expressions.
pub open spec fn initial_terms() -> Map<int, Term> {
    Map::total(|at: int| Term::Init(at))
}

/// The values before a tape runs, under the reading `alg`.
pub open spec fn initial_values<V>(alg: Algebra<V>) -> Map<int, V> {
    Map::total(|at: int| (alg.start)(at))
}

/// Running a tape on values gives the values of the expressions that
/// running it on expressions gives.
pub proof fn lemma_exec_is_eval<V>(
    ops: Seq<RegOp>,
    alg: Algebra<V>,
    st: Map<int, Term>,
    sv: Map<int, V>,
)
    requires
        forall|at: int| #[trigger] sv[at] == eval(st[at], alg),
    ensures
        forall|at: int| #[trigger] exec_regs(ops, alg, sv)[at] == eval(run_regs(ops, st)[at], alg),
    decreases ops.len(),
{
    if ops.len() > 0 {
        let op = ops.last();
        let st1 = op.step(st);
        let sv1 = op.perform(alg, sv);
        assert forall|at: int| #[trigger] sv1[at] == eval(st1[at], alg) by {
            if let RegForm::Compute(shape, _, a, b) = op.form() {
                lemma_eval_apply(shape, st[a as int], st[b as int], alg);
            }
        }
        lemma_exec_is_eval(ops.drop_last(), alg, st1, sv1);
        assert forall|at: int| #[trigger]
            exec_regs(ops, alg, sv)[at] == eval(run_regs(ops, st)[at], alg) by {
            assert(exec_regs(ops.drop_last(), alg, sv1)[at] == eval(
                run_regs(ops.drop_last(), st1)[at],
                alg,
            ));
        }
    }
}

} // verus!
