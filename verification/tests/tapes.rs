//! Tapes built and simplified on small expressions, checked operation by
//! operation.
use fidget::choice::Choice;
use fidget::context::{Context, Node, Op};
use fidget::data::{VmData, VmWorkspace};
use fidget::error::Error;
use fidget::lru::Lru;
use fidget::op::{BinaryKind, Shape, UnaryKind};
use fidget::reg_op::RegOp;
use fidget::regalloc::{RegisterAllocator, MAX_OPS};
use fidget::ssa::SsaTape;
use fidget::ssa_op::SsaOp;
use fidget::tape::Tape;

fn bits(v: f32) -> u32 {
    v.to_bits()
}

fn ssa_ops<const N: usize>(d: &VmData<N>) -> Vec<SsaOp> {
    (0..d.ssa_len()).map(|i| d.ssa_op(i)).collect()
}

/// Checks what every tape has to satisfy: dense slots, each written once,
/// the root first, operands written further down, a right count of choices,
/// and a register tape within its limits.
fn check_shape<const N: usize>(d: &VmData<N>) {
    let ops = ssa_ops(d);
    let n = ops.len();
    assert!(n > 0);
    assert_eq!(ops[0].output(), 0);
    let mut seen = vec![false; n];
    for op in &ops {
        let o = op.output() as usize;
        assert!(o < n);
        assert!(!seen[o]);
        seen[o] = true;
    }
    assert!(seen.iter().all(|s| *s));
    for (k, op) in ops.iter().enumerate() {
        let (shape, _, a, b) = op.decompose();
        let mut operands = vec![];
        if shape.operands() >= 1 {
            operands.push(a);
        }
        if shape.operands() == 2 {
            operands.push(b);
        }
        for s in operands {
            let at = ops.iter().position(|p| p.output() == s).unwrap();
            assert!(at > k);
        }
    }
    let choices = ops.iter().filter(|op| op.has_choice()).count();
    assert_eq!(choices, d.choice_count());
    for op in d.iter_asm() {
        check_within(op, N, d.slot_count());
    }
}

fn check_within(op: RegOp, limit: usize, slots: usize) {
    match op {
        RegOp::Load(reg, mem) | RegOp::Store(mem, reg) => {
            assert!((reg as usize) < limit);
            assert!((mem as usize) < slots);
        }
        RegOp::Input(out, _) | RegOp::Var(out, _) | RegOp::CopyImm(out, _) => {
            assert!((out as usize) < limit);
        }
        RegOp::AddRegReg(out, a, b)
        | RegOp::SubRegReg(out, a, b)
        | RegOp::MulRegReg(out, a, b)
        | RegOp::DivRegReg(out, a, b)
        | RegOp::MinRegReg(out, a, b)
        | RegOp::MaxRegReg(out, a, b) => {
            assert!((out as usize) < limit);
            assert!((a as usize) < limit);
            assert!((b as usize) < limit);
        }
        RegOp::AddRegImm(out, a, _)
        | RegOp::MulRegImm(out, a, _)
        | RegOp::SubRegImm(out, a, _)
        | RegOp::SubImmReg(out, a, _)
        | RegOp::DivRegImm(out, a, _)
        | RegOp::DivImmReg(out, a, _)
        | RegOp::MinRegImm(out, a, _)
        | RegOp::MaxRegImm(out, a, _) => {
            assert!((out as usize) < limit);
            assert!((a as usize) < limit);
        }
        RegOp::NegReg(out, a)
        | RegOp::AbsReg(out, a)
        | RegOp::RecipReg(out, a)
        | RegOp::SqrtReg(out, a)
        | RegOp::SquareReg(out, a)
        | RegOp::SinReg(out, a)
        | RegOp::CosReg(out, a)
        | RegOp::TanReg(out, a)
        | RegOp::AsinReg(out, a)
        | RegOp::AcosReg(out, a)
        | RegOp::AtanReg(out, a)
        | RegOp::ExpReg(out, a)
        | RegOp::LnReg(out, a)
        | RegOp::CopyReg(out, a) => {
            assert!((out as usize) < limit);
            assert!((a as usize) < limit);
        }
    }
}

fn simplify<const N: usize>(d: &VmData<N>, choices: &[Choice]) -> VmData<N> {
    let mut workspace = VmWorkspace::<N>::default();
    match d.simplify(choices, &mut workspace, VmData::<N>::default()) {
        Ok(out) => out,
        Err((e, _)) => panic!("simplify failed: {:?}", e),
    }
}

#[test]
fn sum_of_two_axes() {
    let mut ctx = Context::new();
    let x = ctx.x();
    let y = ctx.y();
    let sum = ctx.binary(BinaryKind::Add, x, y).unwrap();
    let data = VmData::<255>::new(&ctx, sum).unwrap();
    assert_eq!(data.len(), 3);
    assert!(!data.is_empty());
    assert_eq!(
        data.iter_asm(),
        vec![RegOp::Input(0, 0), RegOp::Input(1, 1), RegOp::AddRegReg(0, 0, 1)]
    );
    assert_eq!(data.choice_count(), 0);
    assert_eq!(data.var_count(), 0);
    assert_eq!(data.slot_count(), 0);
    assert_eq!(
        ssa_ops(&data),
        vec![SsaOp::AddRegReg(0, 2, 1), SsaOp::Input(1, 1), SsaOp::Input(2, 0)]
    );
    check_shape(&data);
}

fn min_x_one() -> VmData<255> {
    let mut ctx = Context::new();
    let x = ctx.x();
    let one = ctx.constant(bits(1.0));
    let m = ctx.binary(BinaryKind::Min, x, one).unwrap();
    VmData::<255>::new(&ctx, m).unwrap()
}

#[test]
fn min_with_constant_is_folded() {
    let data = min_x_one();
    assert_eq!(
        ssa_ops(&data),
        vec![SsaOp::MinRegImm(0, 1, bits(1.0)), SsaOp::Input(1, 0)]
    );
    assert_eq!(data.choice_count(), 1);
    check_shape(&data);
}

#[test]
fn min_with_constant_left() {
    let data = min_x_one();
    let out = simplify(&data, &[Choice::Left]);
    assert_eq!(out.len(), 1);
    assert_eq!(out.iter_asm(), vec![RegOp::Input(0, 0)]);
    assert_eq!(out.choice_count(), 0);
    check_shape(&out);
}

#[test]
fn min_with_constant_right() {
    let data = min_x_one();
    let out = simplify(&data, &[Choice::Right]);
    assert_eq!(out.len(), 1);
    assert_eq!(out.iter_asm(), vec![RegOp::CopyImm(0, bits(1.0))]);
    assert_eq!(out.choice_count(), 0);
    check_shape(&out);
}

#[test]
fn min_of_two_axes_both() {
    let mut ctx = Context::new();
    let x = ctx.x();
    let y = ctx.y();
    let m = ctx.binary(BinaryKind::Min, x, y).unwrap();
    let data = VmData::<255>::new(&ctx, m).unwrap();
    let out = simplify(&data, &[Choice::Both]);
    assert_eq!(
        out.iter_asm(),
        vec![RegOp::Input(0, 0), RegOp::Input(1, 1), RegOp::MinRegReg(0, 0, 1)]
    );
    assert_eq!(out.choice_count(), 1);
    assert_eq!(out.iter_asm(), data.iter_asm());
    // The slots are numbered anew, in the order in which the walk meets
    // them.
    assert_eq!(
        ssa_ops(&out),
        vec![SsaOp::MinRegReg(0, 1, 2), SsaOp::Input(2, 1), SsaOp::Input(1, 0)]
    );
    check_shape(&out);
}

#[test]
fn nested_choices_keep_one_axis() {
    let mut ctx = Context::new();
    let x = ctx.x();
    let y = ctx.y();
    let z = ctx.z();
    let inner = ctx.binary(BinaryKind::Min, x, y).unwrap();
    let outer = ctx.binary(BinaryKind::Max, inner, z).unwrap();
    let data = VmData::<255>::new(&ctx, outer).unwrap();
    assert_eq!(data.choice_count(), 2);
    // Choices are recorded in the order of evaluation: the inner `min`
    // first, the outer `max` second.
    let out = simplify(&data, &[Choice::Left, Choice::Right]);
    assert_eq!(out.iter_asm(), vec![RegOp::Input(0, 2)]);
    assert_eq!(ssa_ops(&out), vec![SsaOp::Input(0, 2)]);
    assert_eq!(out.choice_count(), 0);
    check_shape(&out);

    // The outer `max` keeps its left side, the inner `min` its right one.
    let out = simplify(&data, &[Choice::Right, Choice::Left]);
    assert_eq!(ssa_ops(&out), vec![SsaOp::Input(0, 1)]);
    assert_eq!(out.choice_count(), 0);
}

#[test]
fn chosen_side_in_use_becomes_a_copy() {
    // (min(x, y) + x) + y, with the left side of the `min` chosen: `x` has
    // a slot already when the walk reaches the `min`.
    let mut ctx = Context::new();
    let x = ctx.x();
    let y = ctx.y();
    let m = ctx.binary(BinaryKind::Min, x, y).unwrap();
    let s = ctx.binary(BinaryKind::Add, m, x).unwrap();
    let t = ctx.binary(BinaryKind::Add, s, y).unwrap();
    let data = VmData::<255>::new(&ctx, t).unwrap();
    assert_eq!(data.ssa_len(), 5);
    let out = simplify(&data, &[Choice::Left]);
    assert_eq!(out.ssa_len(), 5);
    assert_eq!(
        ssa_ops(&out),
        vec![
            SsaOp::AddRegReg(0, 1, 2),
            SsaOp::AddRegReg(1, 3, 4),
            SsaOp::CopyReg(3, 4),
            SsaOp::Input(2, 1),
            SsaOp::Input(4, 0),
        ]
    );
    assert_eq!(out.choice_count(), 0);
    check_shape(&out);
}

#[test]
fn copy_chain_collapses() {
    // A chain of six `min` that all take their left side: each stands for
    // the one below it, and the chain for `x` at its end. No copy is left.
    let mut ctx = Context::new();
    let x = ctx.x();
    let y = ctx.y();
    let sum = ctx.binary(BinaryKind::Add, x, y).unwrap();
    let mut node = ctx.binary(BinaryKind::Min, x, y).unwrap();
    for _ in 0..5 {
        node = ctx.binary(BinaryKind::Min, node, sum).unwrap();
    }
    let data = VmData::<255>::new(&ctx, node).unwrap();
    assert_eq!(data.choice_count(), 6);
    assert_eq!(data.ssa_len(), 9);
    let firsts = simplify(&data, &[Choice::Left; 6]);
    assert_eq!(ssa_ops(&firsts), vec![SsaOp::Input(0, 0)]);

    // The same with an immediate on the right of every `min`.
    let mut ctx = Context::new();
    let x = ctx.x();
    let mut node = x;
    for _ in 0..4 {
        let one = ctx.constant(bits(1.0));
        node = ctx.binary(BinaryKind::Min, node, one).unwrap();
    }
    let data = VmData::<255>::new(&ctx, node).unwrap();
    assert_eq!(data.ssa_len(), 5);
    let out = simplify(&data, &[Choice::Left; 4]);
    assert_eq!(ssa_ops(&out), vec![SsaOp::Input(0, 0)]);
    assert_eq!(out.len(), 1);
}

#[test]
fn simplify_never_grows() {
    let mut ctx = Context::new();
    let x = ctx.x();
    let y = ctx.y();
    let a = ctx.binary(BinaryKind::Min, x, y).unwrap();
    let b = ctx.binary(BinaryKind::Max, x, y).unwrap();
    let c = ctx.binary(BinaryKind::Min, a, b).unwrap();
    let data = VmData::<255>::new(&ctx, c).unwrap();
    let all = [Choice::Left, Choice::Right, Choice::Both];
    for p in all {
        for q in all {
            for r in all {
                let out = simplify(&data, &[p, q, r]);
                assert!(out.ssa_len() <= data.ssa_len());
                assert!(out.len() <= data.len());
                check_shape(&out);
                let kept = [p, q, r];
                if kept.iter().all(|c| *c == Choice::Both) {
                    assert_eq!(out.choice_count(), data.choice_count());
                    assert_eq!(out.ssa_len(), data.ssa_len());
                    assert_eq!(out.iter_asm(), data.iter_asm());
                }
            }
        }
    }
}

#[test]
fn simplify_twice_with_one_workspace() {
    let data = min_x_one();
    let mut workspace = VmWorkspace::<255>::default();
    let mut spare = VmData::<255>::default();
    for _ in 0..4 {
        let out = match data.simplify(&[Choice::Left], &mut workspace, spare) {
            Ok(out) => out,
            Err((e, _)) => panic!("simplify failed: {:?}", e),
        };
        assert_eq!(out.iter_asm(), vec![RegOp::Input(0, 0)]);
        spare = out;
    }
}

#[test]
fn wrong_number_of_choices() {
    let data = min_x_one();
    let mut workspace = VmWorkspace::<255>::default();
    let r = data.simplify(&[], &mut workspace, VmData::<255>::default());
    assert!(matches!(r, Err((Error::BadChoiceSlice(0, 1), _))));
    let r = data.simplify(
        &[Choice::Left, Choice::Both],
        &mut workspace,
        VmData::<255>::default(),
    );
    assert!(matches!(r, Err((Error::BadChoiceSlice(2, 1), _))));
}

#[test]
fn empty_tape_is_refused() {
    let data = VmData::<255>::default();
    assert!(data.is_empty());
    assert_eq!(data.len(), 0);
    let mut workspace = VmWorkspace::<255>::default();
    let r = data.simplify(&[], &mut workspace, VmData::<255>::default());
    assert!(matches!(r, Err((Error::EmptyTape, _))));
}

#[test]
fn unknown_node_is_refused() {
    let mut ctx = Context::new();
    let x = ctx.x();
    assert!(matches!(VmData::<255>::new(&ctx, Node(1)), Err(Error::BadNode)));
    assert!(matches!(ctx.unary(UnaryKind::Neg, Node(7)), Err(Error::BadNode)));
    assert!(matches!(ctx.binary(BinaryKind::Add, x, Node(7)), Err(Error::BadNode)));
    assert_eq!(ctx.len(), 1);
    assert_eq!(ctx.get_op(Node(0)), Some(Op::Input(0)));
    assert_eq!(ctx.get_op(Node(1)), None);
    assert!(MAX_OPS > 1 << 31);
}

#[test]
fn constants_become_immediates() {
    let mut ctx = Context::new();
    let x = ctx.x();
    let two = ctx.constant(bits(2.0));
    let a = ctx.binary(BinaryKind::Sub, two, x).unwrap(); // 2 - x
    let b = ctx.binary(BinaryKind::Sub, x, two).unwrap(); // x - 2
    let c = ctx.binary(BinaryKind::Mul, two, a).unwrap(); // 2 * (2 - x)
    let d = ctx.binary(BinaryKind::Div, two, b).unwrap(); // 2 / (x - 2)
    let e = ctx.binary(BinaryKind::Div, c, two).unwrap(); // c / 2
    let f = ctx.binary(BinaryKind::Max, two, d).unwrap(); // max(2, d)
    let g = ctx.binary(BinaryKind::Add, e, f).unwrap();
    let data = VmData::<255>::new(&ctx, g).unwrap();
    assert_eq!(
        ssa_ops(&data),
        vec![
            SsaOp::AddRegReg(0, 4, 1),
            SsaOp::MaxRegImm(1, 2, bits(2.0)),
            SsaOp::DivImmReg(2, 3, bits(2.0)),
            SsaOp::SubRegImm(3, 7, bits(2.0)),
            SsaOp::DivRegImm(4, 5, bits(2.0)),
            SsaOp::MulRegImm(5, 6, bits(2.0)),
            SsaOp::SubImmReg(6, 7, bits(2.0)),
            SsaOp::Input(7, 0),
        ]
    );
    assert_eq!(data.choice_count(), 1);
    check_shape(&data);
}

#[test]
fn constants_without_a_form_get_a_slot() {
    let mut ctx = Context::new();
    let two = ctx.constant(bits(2.0));
    let three = ctx.constant(bits(3.0));
    let sum = ctx.binary(BinaryKind::Add, two, three).unwrap();
    let root = ctx.unary(UnaryKind::Sqrt, sum).unwrap();
    let data = VmData::<255>::new(&ctx, root).unwrap();
    assert_eq!(
        ssa_ops(&data),
        vec![
            SsaOp::SqrtReg(0, 1),
            SsaOp::AddRegImm(1, 2, bits(3.0)),
            SsaOp::CopyImm(2, bits(2.0)),
        ]
    );
    let neg = ctx.unary(UnaryKind::Neg, three).unwrap();
    let data = VmData::<255>::new(&ctx, neg).unwrap();
    assert_eq!(
        ssa_ops(&data),
        vec![SsaOp::NegReg(0, 1), SsaOp::CopyImm(1, bits(3.0))]
    );
    let data = VmData::<255>::new(&ctx, two).unwrap();
    assert_eq!(ssa_ops(&data), vec![SsaOp::CopyImm(0, bits(2.0))]);
}

#[test]
fn shared_nodes_share_a_slot() {
    let mut ctx = Context::new();
    let x = ctx.x();
    let sq = ctx.unary(UnaryKind::Square, x).unwrap();
    let sum = ctx.binary(BinaryKind::Add, sq, sq).unwrap();
    let root = ctx.binary(BinaryKind::Mul, sum, sq).unwrap();
    let data = VmData::<255>::new(&ctx, root).unwrap();
    assert_eq!(
        ssa_ops(&data),
        vec![
            SsaOp::MulRegReg(0, 1, 2),
            SsaOp::AddRegReg(1, 2, 2),
            SsaOp::SquareReg(2, 3),
            SsaOp::Input(3, 0),
        ]
    );
    check_shape(&data);
}

#[test]
fn variables_are_numbered_as_met() {
    let mut ctx = Context::new();
    let a = ctx.var(String::from("a"));
    let b = ctx.var(String::from("b"));
    let a2 = ctx.var(String::from("a"));
    assert_eq!(a, a2);
    assert_eq!(ctx.var_count(), 2);
    assert_eq!(ctx.var_name(1), "b");
    let s = ctx.binary(BinaryKind::Add, a, b).unwrap();
    let t = ctx.binary(BinaryKind::Mul, s, a2).unwrap();
    let data = VmData::<255>::new(&ctx, t).unwrap();
    assert_eq!(data.var_count(), 2);
    // The tape comes to `b` before it comes to `a`.
    assert_eq!(data.vars(), &vec![String::from("b"), String::from("a")]);
    assert_eq!(
        ssa_ops(&data),
        vec![
            SsaOp::MulRegReg(0, 1, 3),
            SsaOp::AddRegReg(1, 3, 2),
            SsaOp::Var(2, 0),
            SsaOp::Var(3, 1),
        ]
    );
    // Only `b` is part of this tape.
    let data = VmData::<255>::new(&ctx, b).unwrap();
    assert_eq!(data.vars(), &vec![String::from("b")]);
    assert_eq!(ssa_ops(&data), vec![SsaOp::Var(0, 0)]);
    // Simplification keeps the names.
    let m = ctx.binary(BinaryKind::Min, a, b).unwrap();
    let data = VmData::<255>::new(&ctx, m).unwrap();
    let out = simplify(&data, &[Choice::Right]);
    assert_eq!(out.vars(), data.vars());
    assert_eq!(ssa_ops(&out), vec![SsaOp::Var(0, 0)]);
}

#[test]
fn equal_nodes_are_one_node() {
    let mut ctx = Context::new();
    let x = ctx.x();
    let y = ctx.y();
    assert_eq!(ctx.x(), x);
    let c = ctx.constant(bits(0.5));
    assert_eq!(ctx.constant(bits(0.5)), c);
    assert_ne!(ctx.constant(bits(-0.5)), c);
    let a = ctx.binary(BinaryKind::Add, x, y).unwrap();
    let b = ctx.binary(BinaryKind::Add, x, y).unwrap();
    let other = ctx.binary(BinaryKind::Add, y, x).unwrap();
    assert_eq!(a, b);
    assert_ne!(a, other);
    let n = ctx.unary(UnaryKind::Neg, a).unwrap();
    assert_eq!(ctx.unary(UnaryKind::Neg, b).unwrap(), n);
    assert_eq!(ctx.len(), 7);
    // (x + y) * (x + y): one sum, read twice.
    let sq = ctx.binary(BinaryKind::Mul, a, b).unwrap();
    let data = VmData::<255>::new(&ctx, sq).unwrap();
    assert_eq!(
        ssa_ops(&data),
        vec![
            SsaOp::MulRegReg(0, 1, 1),
            SsaOp::AddRegReg(1, 3, 2),
            SsaOp::Input(2, 1),
            SsaOp::Input(3, 0),
        ]
    );
}

fn long_sum<const N: usize>(terms: usize) -> VmData<N> {
    let mut ctx = Context::new();
    let mut sum = ctx.var(String::from("v0"));
    for i in 1..terms {
        let v = ctx.var(format!("v{}", i));
        sum = ctx.binary(BinaryKind::Add, sum, v).unwrap();
    }
    VmData::<N>::new(&ctx, sum).unwrap()
}

#[test]
fn left_deep_sum_needs_two_registers() {
    let data = long_sum::<4>(8);
    assert_eq!(data.ssa_len(), 15);
    assert_eq!(data.len(), 15);
    assert_eq!(data.slot_count(), 0);
    check_shape(&data);
}

#[test]
fn tight_budget_spills() {
    // In a balanced sum of sixteen variables the tape comes to all sums
    // before it comes to a variable: sixteen values are alive at once.
    let mut ctx = Context::new();
    let mut level: Vec<Node> = (0..16).map(|i| ctx.var(format!("v{}", i))).collect();
    while level.len() > 1 {
        let mut next = vec![];
        for pair in level.chunks(2) {
            next.push(ctx.binary(BinaryKind::Add, pair[0], pair[1]).unwrap());
        }
        level = next;
    }
    let data = VmData::<4>::new(&ctx, level[0]).unwrap();
    assert_eq!(data.ssa_len(), 31);
    assert!(data.slot_count() > 0);
    let code = data.iter_asm();
    let loads = code.iter().filter(|op| matches!(op, RegOp::Load(..))).count();
    let stores = code.iter().filter(|op| matches!(op, RegOp::Store(..))).count();
    assert!(loads > 0);
    assert_eq!(loads, stores);
    assert_eq!(data.len(), 31 + loads + stores);
    check_shape(&data);

    let wide = VmData::<255>::new(&ctx, level[0]).unwrap();
    assert_eq!(wide.len(), 31);
    assert_eq!(wide.slot_count(), 0);
}

#[test]
fn operation_parts() {
    let op = SsaOp::MinRegImm(4, 7, bits(0.5));
    assert_eq!(op.output(), 4);
    assert!(op.has_choice());
    assert_eq!(op.decompose(), (Shape::RegImm(BinaryKind::Min, bits(0.5)), 4, 7, 0));
    assert_eq!(op.renamed(1, 2, 3), SsaOp::MinRegImm(1, 2, bits(0.5)));
    assert_eq!(op.to_reg(1, 2, 3), RegOp::MinRegImm(1, 2, bits(0.5)));
    let op = SsaOp::SubRegReg(0, 1, 2);
    assert!(!op.has_choice());
    assert_eq!(op.decompose(), (Shape::Binary(BinaryKind::Sub), 0, 1, 2));
    assert_eq!(op.to_reg(9, 8, 7), RegOp::SubRegReg(9, 8, 7));
    assert_eq!(SsaOp::Input(3, 2).decompose(), (Shape::Input(2), 3, 0, 0));
    assert_eq!(SsaOp::CopyReg(3, 2).decompose(), (Shape::Copy, 3, 2, 0));
    assert!(SsaOp::MaxRegReg(0, 1, 2).has_choice());
    assert!(!SsaOp::CopyImm(0, 1).has_choice());
    assert_eq!(SsaOp::unary(UnaryKind::Ln, 1, 2), SsaOp::LnReg(1, 2));
    assert_eq!(SsaOp::binary(BinaryKind::Div, 1, 2, 3), SsaOp::DivRegReg(1, 2, 3));
    assert_eq!(SsaOp::reg_imm(BinaryKind::Sub, 1, 2, 3), SsaOp::SubRegImm(1, 2, 3));
    assert_eq!(SsaOp::imm_reg(BinaryKind::Sub, 1, 2, 3), SsaOp::SubImmReg(1, 2, 3));
    assert_eq!(SsaOp::imm_reg(BinaryKind::Add, 1, 2, 3), SsaOp::AddRegImm(1, 2, 3));
    assert!(BinaryKind::Min.is_select() && !BinaryKind::Mul.is_select());
    assert!(BinaryKind::Mul.is_commutative() && !BinaryKind::Div.is_commutative());
    assert_eq!(Shape::Unary(UnaryKind::Abs).operands(), 1);
    assert!(Choice::Both.known() && !Choice::Unknown.known());
}

#[test]
fn operations_are_small() {
    assert!(std::mem::size_of::<SsaOp>() <= 16);
    assert!(std::mem::size_of::<RegOp>() <= 16);
}

#[test]
fn register_tape_basics() {
    let mut tape = Tape::new(24);
    assert_eq!(tape.reg_limit(), 24);
    assert_eq!(tape.slot_count(), 0);
    assert!(tape.is_empty());
    tape.push(RegOp::AddRegReg(0, 0, 1));
    tape.push(RegOp::Input(1, 1));
    tape.push(RegOp::Input(0, 0));
    assert_eq!(tape.len(), 3);
    assert!(!tape.is_empty());
    let seen: Vec<RegOp> = tape.iter().cloned().collect();
    assert_eq!(
        seen,
        vec![RegOp::AddRegReg(0, 0, 1), RegOp::Input(1, 1), RegOp::Input(0, 0)]
    );
    assert_eq!(tape.get(1), RegOp::Input(1, 1));
    tape.reset(8);
    assert_eq!(tape.reg_limit(), 8);
    assert_eq!(tape.slot_count(), 0);
    assert_eq!(tape.len(), 0);
    let tape = Tape::default();
    assert_eq!(tape.slot_count(), 0);
    assert_eq!(tape.reg_limit(), 0);
}

#[test]
fn least_recently_used_order() {
    let mut lru = Lru::new(4);
    assert_eq!(lru.len(), 4);
    // Used last to longest ago: 0 1 2 3
    assert_eq!(lru.pop(), 3); // 3 0 1 2
    lru.poke(1); // 1 3 0 2
    assert_eq!(lru.pop(), 2); // 2 1 3 0
    lru.poke(2); // unchanged
    assert_eq!(lru.pop(), 0); // 0 2 1 3
    assert_eq!(lru.pop(), 3);
    assert_eq!(lru.pop(), 1);
    lru.reset(2);
    assert_eq!(lru.pop(), 1);
    assert_eq!(lru.pop(), 0);
    let mut one = Lru::new(1);
    one.poke(0);
    assert_eq!(one.pop(), 0);
}

#[test]
fn allocator_step_by_step() {
    let mut alloc = RegisterAllocator::<2>::new(5);
    // $0 = $1 + $2; $1 = $3 * $4; $2 = $3 - $4; $3 = x; $4 = y
    alloc.op(SsaOp::AddRegReg(0, 1, 2));
    alloc.op(SsaOp::MulRegReg(1, 3, 4));
    alloc.op(SsaOp::SubRegReg(2, 3, 4));
    alloc.op(SsaOp::Input(3, 0));
    alloc.op(SsaOp::Input(4, 1));
    let tape = alloc.finalize();
    assert_eq!(tape.reg_limit(), 2);
    let mut regs = [0.0f32; 2];
    let mut mem = vec![0.0f32; tape.slot_count()];
    assert!(tape.slot_count() > 0);
    let ops: Vec<RegOp> = tape.iter().cloned().collect();
    for op in ops.iter().rev() {
        match *op {
            RegOp::Input(out, axis) => regs[out as usize] = [3.0, 5.0, 0.0][axis as usize],
            RegOp::AddRegReg(out, a, b) => regs[out as usize] = regs[a as usize] + regs[b as usize],
            RegOp::MulRegReg(out, a, b) => regs[out as usize] = regs[a as usize] * regs[b as usize],
            RegOp::SubRegReg(out, a, b) => regs[out as usize] = regs[a as usize] - regs[b as usize],
            RegOp::Load(reg, slot) => regs[reg as usize] = mem[slot as usize],
            RegOp::Store(slot, reg) => mem[slot as usize] = regs[reg as usize],
            _ => unreachable!(),
        }
    }
    assert_eq!(regs[0], 3.0 * 5.0 + (3.0 - 5.0));
    assert!(ops.iter().any(|op| matches!(op, RegOp::Load(..))));

    // An operation whose result nothing reads is left out.
    let mut alloc = RegisterAllocator::<2>::empty();
    alloc.reset(3, Tape::default());
    alloc.op(SsaOp::Input(0, 0));
    alloc.op(SsaOp::Input(1, 1));
    let tape = alloc.finalize();
    assert_eq!(tape.len(), 1);
    assert_eq!(tape.get(0), RegOp::Input(0, 0));
}

#[test]
fn slot_tape_basics() {
    let mut ctx = Context::new();
    let x = ctx.x();
    let one = ctx.constant(bits(1.0));
    let m = ctx.binary(BinaryKind::Max, x, one).unwrap();
    let mut tape = SsaTape::new(&ctx, m).unwrap();
    assert_eq!(tape.len(), 2);
    assert_eq!(tape.choice_count(), 1);
    assert_eq!(tape.get(0), SsaOp::MaxRegImm(0, 1, bits(1.0)));
    assert!(tape.vars().is_empty());
    tape.reset();
    assert!(tape.is_empty());
    assert_eq!(tape.choice_count(), 0);
    assert!(SsaTape::default().is_empty());
}

#[test]
fn tight_budget_adds_loads_and_stores() {
    // max(max(z + x, z + y) + (x + z), x) + (z + y), in three registers.
    let mut ctx = Context::new();
    let x = ctx.x();
    let y = ctx.y();
    let z = ctx.z();
    let xz = ctx.binary(BinaryKind::Add, x, z).unwrap();
    let zx = ctx.binary(BinaryKind::Add, z, x).unwrap();
    let zy = ctx.binary(BinaryKind::Add, z, y).unwrap();
    let inner = ctx.binary(BinaryKind::Max, zx, zy).unwrap();
    let sum = ctx.binary(BinaryKind::Add, inner, xz).unwrap();
    let outer = ctx.binary(BinaryKind::Max, sum, x).unwrap();
    let root = ctx.binary(BinaryKind::Add, outer, zy).unwrap();
    let data = VmData::<3>::new(&ctx, root).unwrap();
    assert_eq!(data.ssa_len(), 10);
    let out = simplify(&data, &[Choice::Left, Choice::Both]);
    // The slot tape gets shorter; the register tape holds the loads and
    // stores besides.
    assert_eq!(out.ssa_len(), 9);
    assert!(out.ssa_len() <= data.ssa_len());
    check_shape(&out);
    let spills = |code: &Vec<RegOp>| {
        code.iter()
            .filter(|op| matches!(op, RegOp::Load(..) | RegOp::Store(..)))
            .count()
    };
    assert_eq!(data.len(), data.ssa_len() + spills(&data.iter_asm()));
    assert_eq!(out.len(), out.ssa_len() + spills(&out.iter_asm()));
    assert_eq!((data.len(), out.len()), (14, 13));

    // With registers to spare, the register tape follows the slot tape.
    let wide = VmData::<255>::new(&ctx, root).unwrap();
    let out = simplify(&wide, &[Choice::Left, Choice::Both]);
    assert_eq!((wide.len(), out.len()), (10, 9));
}

#[test]
fn nodes_are_listed_depth_first() {
    // (x * y) + (z * x): the left product is evaluated first, so that it
    // stands last in the tape, and x, which both read, has one slot.
    let mut ctx = Context::new();
    let z = ctx.z();
    let y = ctx.y();
    let x = ctx.x();
    let zx = ctx.binary(BinaryKind::Mul, z, x).unwrap();
    let xy = ctx.binary(BinaryKind::Mul, x, y).unwrap();
    let root = ctx.binary(BinaryKind::Add, xy, zx).unwrap();
    let data = VmData::<255>::new(&ctx, root).unwrap();
    assert_eq!(
        ssa_ops(&data),
        vec![
            SsaOp::AddRegReg(0, 3, 1),
            SsaOp::MulRegReg(1, 2, 5),
            SsaOp::Input(2, 2),
            SsaOp::MulRegReg(3, 5, 4),
            SsaOp::Input(4, 1),
            SsaOp::Input(5, 0),
        ]
    );
    assert_eq!(data.slot_count(), 0);
    assert_eq!(data.len(), 6);
    check_shape(&data);
}

#[test]
fn few_operations_need_no_spill_slot() {
    // Fewer operations than registers: nothing is loaded or stored, and
    // the register tape has the operations of the slot tape, one for one.
    let mut ctx = Context::new();
    let x = ctx.x();
    let y = ctx.y();
    let z = ctx.z();
    let a = ctx.binary(BinaryKind::Mul, x, y).unwrap();
    let b = ctx.binary(BinaryKind::Min, a, z).unwrap();
    let data = VmData::<6>::new(&ctx, b).unwrap();
    assert_eq!(data.ssa_len(), 5);
    assert_eq!(data.slot_count(), 0);
    let code = data.iter_asm();
    assert_eq!(code.len(), 5);
    assert!(matches!(code[0], RegOp::Input(_, 0)));
    assert!(matches!(code[1], RegOp::Input(_, 1)));
    assert!(matches!(code[2], RegOp::MulRegReg(..)));
    assert!(matches!(code[3], RegOp::Input(_, 2)));
    assert!(matches!(code[4], RegOp::MinRegReg(0, _, _)));
}

#[test]
fn tight_budget_can_lengthen_the_register_tape() {
    // min(max(max(x, z), x), x * max(x, z)) * min(max(max(x, z), x), z),
    // in three registers.
    let mut ctx = Context::new();
    let x = ctx.x();
    let z = ctx.z();
    let a = ctx.binary(BinaryKind::Max, x, z).unwrap();
    let b = ctx.binary(BinaryKind::Max, a, x).unwrap();
    let c = ctx.binary(BinaryKind::Mul, x, a).unwrap();
    let d = ctx.binary(BinaryKind::Min, b, c).unwrap();
    let e = ctx.binary(BinaryKind::Min, b, z).unwrap();
    let root = ctx.binary(BinaryKind::Mul, d, e).unwrap();
    let data = VmData::<3>::new(&ctx, root).unwrap();
    assert_eq!(data.choice_count(), 4);
    let out = simplify(
        &data,
        &[Choice::Left, Choice::Left, Choice::Right, Choice::Both],
    );
    // The slot tape gets shorter, but the loads and stores around it do
    // not have to follow.
    assert_eq!((data.ssa_len(), out.ssa_len()), (8, 7));
    assert_eq!((data.len(), out.len()), (10, 11));
    assert!(data.slot_count() > 0 && out.slot_count() > 0);
    check_shape(&out);

    // With registers to spare, the register tape follows the slot tape.
    let wide = VmData::<255>::new(&ctx, root).unwrap();
    let out = simplify(
        &wide,
        &[Choice::Left, Choice::Left, Choice::Right, Choice::Both],
    );
    assert_eq!((wide.slot_count(), out.slot_count()), (0, 0));
    assert_eq!((wide.len(), out.len()), (8, 7));
}

#[test]
fn refused_simplify_leaves_the_workspace_usable() {
    let data = min_x_one();
    let mut workspace = VmWorkspace::<255>::default();
    let first = match data.simplify(&[Choice::Right], &mut workspace, VmData::<255>::default()) {
        Ok(out) => out,
        Err((e, _)) => panic!("simplify failed: {:?}", e),
    };
    assert_eq!(first.iter_asm(), vec![RegOp::CopyImm(0, bits(1.0))]);
    // The spare tapes come back with the error, as they were.
    match data.simplify(&[], &mut workspace, min_x_one()) {
        Err((Error::BadChoiceSlice(0, 1), back)) => {
            assert_eq!(ssa_ops(&back), ssa_ops(&data));
            assert_eq!(back.iter_asm(), data.iter_asm());
        }
        _ => panic!("a choice is missing"),
    }
    let empty = VmData::<255>::default();
    match empty.simplify(&[], &mut workspace, first) {
        Err((Error::EmptyTape, back)) => {
            assert_eq!(back.iter_asm(), vec![RegOp::CopyImm(0, bits(1.0))]);
        }
        _ => panic!("the tape is empty"),
    }
    let again = match data.simplify(&[Choice::Left], &mut workspace, VmData::<255>::default()) {
        Ok(out) => out,
        Err((e, _)) => panic!("simplify failed: {:?}", e),
    };
    assert_eq!(again.iter_asm(), vec![RegOp::Input(0, 0)]);
    assert_eq!(again.slot_count(), 0);
}

#[test]
fn copy_chain_becomes_one_operation() {
    // min(min(min(x, 1), 1), 1) with the left side chosen throughout: each
    // min forwards its operand, and the axis is all that is left.
    let mut ctx = Context::new();
    let x = ctx.x();
    let one = ctx.constant(bits(1.0));
    let a = ctx.binary(BinaryKind::Min, x, one).unwrap();
    let b = ctx.binary(BinaryKind::Min, a, one).unwrap();
    let c = ctx.binary(BinaryKind::Min, b, one).unwrap();
    let data = VmData::<2>::new(&ctx, c).unwrap();
    assert_eq!(data.ssa_len(), 4);
    assert_eq!(data.len(), 4);
    let out = simplify(&data, &[Choice::Left, Choice::Left, Choice::Left]);
    assert_eq!(ssa_ops(&out), vec![SsaOp::Input(0, 0)]);
    assert_eq!(out.iter_asm(), vec![RegOp::Input(0, 0)]);
    assert_eq!(out.len(), 1);
    assert_eq!(out.slot_count(), 0);
}

#[test]
fn tape_does_not_depend_on_the_order_of_nodes() {
    // (x - y) * (y + z), with the nodes added in two different orders.
    let mut first = Context::new();
    let x = first.x();
    let y = first.y();
    let z = first.z();
    let d = first.binary(BinaryKind::Sub, x, y).unwrap();
    let s = first.binary(BinaryKind::Add, y, z).unwrap();
    let root = first.binary(BinaryKind::Mul, d, s).unwrap();
    let one = VmData::<255>::new(&first, root).unwrap();

    let mut second = Context::new();
    let z = second.z();
    let y = second.y();
    let s = second.binary(BinaryKind::Add, y, z).unwrap();
    let x = second.x();
    let d = second.binary(BinaryKind::Sub, x, y).unwrap();
    let root = second.binary(BinaryKind::Mul, d, s).unwrap();
    let other = VmData::<255>::new(&second, root).unwrap();

    assert_eq!(ssa_ops(&one), ssa_ops(&other));
    assert_eq!(one.iter_asm(), other.iter_asm());
    assert_eq!(
        ssa_ops(&one),
        vec![
            SsaOp::MulRegReg(0, 3, 1),
            SsaOp::AddRegReg(1, 4, 2),
            SsaOp::Input(2, 2),
            SsaOp::SubRegReg(3, 5, 4),
            SsaOp::Input(4, 1),
            SsaOp::Input(5, 0),
        ]
    );
}
