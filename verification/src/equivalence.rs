//! Simplification keeps the value of a tape wherever the choices that it
//! was given hold.
use vstd::prelude::*;
use crate::choice::Choice;
use crate::op::{eval, lemma_eval_apply, Algebra, Shape};
use crate::simplify::{
    activate, fits, lemma_prune_fits, lemma_simplified_well_formed, next_choice, prune, simplified,
    step, Pruning, SENTINEL,
};
use crate::ssa::{
    count_choices, denote, lemma_slot_term, slot_term, well_formed, written,
};
use crate::ssa_op::{lemma_with_slots, SsaOp};

verus! {

/// The choice that belongs to the operation at position `k`, if that is a
/// `min` or `max`: choices are listed in the order of evaluation, which is
/// the tape read from its far end.
pub open spec fn choice_at(ops: Seq<SsaOp>, choices: Seq<Choice>, k: int) -> Choice {
    choices[choices.len() - 1 - count_choices(ops.take(k))]
}

/// The choice `c` is right for the `min` or `max` at position `k` under
/// the reading `alg`: `Left` where the result has the value of the left
/// operand, `Right` where it has the value of the right operand or of the
/// immediate. `Both` is always right.
pub open spec fn holds<V>(ops: Seq<SsaOp>, alg: Algebra<V>, k: int, c: Choice) -> bool {
    let op = ops[k];
    let whole = eval(slot_term(ops, op.out()), alg);
    match op.shape() {
        Shape::Binary(_) => match c {
            Choice::Left => whole == eval(slot_term(ops, op.lhs()), alg),
            Choice::Right => whole == eval(slot_term(ops, op.rhs()), alg),
            _ => true,
        },
        Shape::RegImm(_, imm) => match c {
            Choice::Left => whole == eval(slot_term(ops, op.lhs()), alg),
            Choice::Right => whole == (alg.imm)(imm),
            _ => true,
        },
        _ => true,
    }
}

/// Every choice is right for its `min` or `max` under the reading `alg`.
pub open spec fn honors<V>(ops: Seq<SsaOp>, alg: Algebra<V>, choices: Seq<Choice>) -> bool {
    forall|k: int|
        0 <= k < ops.len() && (#[trigger] ops[k]).shape().has_choice() ==> holds(
            ops,
            alg,
            k,
            choice_at(ops, choices, k),
        )
}

/// The result holds the operation `op`.
pub open spec fn emitted(out: Seq<SsaOp>, op: SsaOp) -> bool {
    exists|j: int| 0 <= j < out.len() && #[trigger] out[j] == op
}

/// The slot `id` of the result stands for the source slot `src`: it is
/// the slot of `src`, or a copy of it.
pub open spec fn forwarded(st: Pruning, id: u32, src: u32) -> bool {
    &&& st.bind[src as int] != SENTINEL
    &&& st.bind[src as int] == id || emitted(st.out, SsaOp::CopyReg(id, st.bind[src as int]))
}

/// The result holds `op` over its own slots, writing `id`.
pub open spec fn kept(st: Pruning, op: SsaOp, id: u32) -> bool {
    &&& op.shape().arity() >= 1 ==> st.bind[op.lhs() as int] != SENTINEL
    &&& op.shape().arity() == 2 ==> st.bind[op.rhs() as int] != SENTINEL
    &&& emitted(
        st.out,
        op.with_slots(
            id,
            if op.shape().arity() >= 1 {
                st.bind[op.lhs() as int]
            } else {
                0
            },
            if op.shape().arity() == 2 {
                st.bind[op.rhs() as int]
            } else {
                0
            },
        ),
    )
}

/// The state records what became of the source operation `op`, which was
/// walked with the choice `c`: if its result has a slot in the result, the
/// operation was kept, or one of its sides was forwarded, or its immediate
/// was written.
pub open spec fn explained(st: Pruning, op: SsaOp, c: Choice) -> bool {
    let id = st.bind[op.out() as int];
    id != SENTINEL ==> match op.shape() {
        Shape::Copy => forwarded(st, id, op.lhs()),
        Shape::RegImm(k, imm) => if k.selects() {
            match c {
                Choice::Left => forwarded(st, id, op.lhs()),
                Choice::Right => emitted(st.out, SsaOp::CopyImm(id, imm)),
                _ => kept(st, op, id),
            }
        } else {
            kept(st, op, id)
        },
        Shape::Binary(k) => if k.selects() {
            match c {
                Choice::Left => forwarded(st, id, op.lhs()),
                Choice::Right => forwarded(st, id, op.rhs()),
                _ => kept(st, op, id),
            }
        } else {
            kept(st, op, id)
        },
        _ => kept(st, op, id),
    }
}

/// The state records what became of each of the first `k` operations, and
/// the root of the source is the root of the result.
pub open spec fn traced(ops: Seq<SsaOp>, choices: Seq<Choice>, k: int, st: Pruning) -> bool {
    &&& st.bind[0] == 0
    &&& forall|j: int|
        0 <= j < k ==> explained(st, #[trigger] ops[j], choice_at(ops, choices, j))
}

/// A step of the walk gives slots to operands of the operation that it
/// passes, which had none, and changes nothing else; and it keeps what the
/// result holds.
proof fn lemma_step_frame(ops: Seq<SsaOp>, choices: Seq<Choice>, k: int, st: Pruning)
    requires
        well_formed(ops),
        fits(ops, k, st, None),
        0 <= k < ops.len(),
    ensures
        forall|x: int|
            0 <= x < ops.len() && (#[trigger] step(st, ops[k], choices).bind[x]) != st.bind[x]
                ==> st.bind[x] == SENTINEL && ops[k].reads(x as u32),
        forall|op: SsaOp| #[trigger] emitted(st.out, op) ==> emitted(step(st, ops[k], choices).out, op),
        step(st, ops[k], choices).out.len() >= st.out.len(),
{
    let st1 = step(st, ops[k], choices);
    assert forall|op: SsaOp| #[trigger] emitted(st.out, op) implies emitted(st1.out, op) by {
        let j = choose|j: int| 0 <= j < st.out.len() && #[trigger] st.out[j] == op;
        assert(st1.out[j] == op);
    }
}

/// What a step records of the operation that it passes.
proof fn lemma_step_explained(ops: Seq<SsaOp>, choices: Seq<Choice>, k: int, st: Pruning)
    requires
        well_formed(ops),
        fits(ops, k, st, None),
        0 <= k < ops.len(),
    ensures
        explained(step(st, ops[k], choices), ops[k], choice_at(ops, choices, k)),
{
    let op = ops[k];
    let st1 = step(st, op, choices);
    let id = st.bind[op.out() as int];
    assert(next_choice(st, choices) == choice_at(ops, choices, k));
    assert(!ops[k].reads(ops[k].out()));
    if id != SENTINEL {
        let m = st.out.len() as int;
        assert(st1.bind[op.out() as int] == id);
        match op.shape() {
            Shape::Input(_) | Shape::Var(_) | Shape::Imm(_) => {
                assert(st1.out[m] == op.with_slots(id, 0, 0));
            },
            Shape::Copy => {
                lemma_forwarded(st, id, op.lhs());
            },
            Shape::Unary(_) | Shape::ImmReg(_, _) => {
                lemma_kept_one(st, op, id);
            },
            Shape::RegImm(kind, imm) => {
                let chosen = Pruning { used: st.used + 1, ..st };
                if kind.selects() {
                    match next_choice(st, choices) {
                        Choice::Left => {
                            lemma_forwarded(chosen, id, op.lhs());
                        },
                        Choice::Right => {
                            assert(st1.out[m] == SsaOp::CopyImm(id, imm));
                        },
                        _ => {
                            lemma_kept_one(chosen, op, id);
                        },
                    }
                } else {
                    lemma_kept_one(st, op, id);
                }
            },
            Shape::Binary(kind) => {
                let chosen = Pruning { used: st.used + 1, ..st };
                if kind.selects() {
                    match next_choice(st, choices) {
                        Choice::Left => {
                            lemma_forwarded(chosen, id, op.lhs());
                        },
                        Choice::Right => {
                            lemma_forwarded(chosen, id, op.rhs());
                        },
                        _ => {
                            lemma_kept_two(chosen, op, id);
                        },
                    }
                } else {
                    lemma_kept_two(st, op, id);
                }
            },
        }
    }
}

/// Forwarding records that the slot stands for the source slot.
proof fn lemma_forwarded(st: Pruning, id: u32, src: u32)
    requires
        src < st.bind.len(),
        id != SENTINEL,
    ensures
        forwarded(crate::simplify::forward(st, id, src), id, src),
{
    let st1 = crate::simplify::forward(st, id, src);
    if st.bind[src as int] != SENTINEL {
        assert(st1.out[st.out.len() as int] == SsaOp::CopyReg(id, st.bind[src as int]));
    }
}

/// Keeping an operation of one operand records it.
proof fn lemma_kept_one(st: Pruning, op: SsaOp, id: u32)
    requires
        op.shape().arity() == 1,
        op.lhs() < st.bind.len(),
        st.count < SENTINEL,
    ensures
        kept(crate::simplify::rewrite_one(st, op, id), op, id),
{
    let st1 = crate::simplify::rewrite_one(st, op, id);
    let a = activate(st, op.lhs()).1;
    assert(st1.out[st.out.len() as int] == op.with_slots(id, a, 0));
}

/// Keeping an operation of two operands records it.
proof fn lemma_kept_two(st: Pruning, op: SsaOp, id: u32)
    requires
        op.shape().arity() == 2,
        op.lhs() < st.bind.len(),
        op.rhs() < st.bind.len(),
        st.count + 1 < SENTINEL,
    ensures
        kept(crate::simplify::rewrite_two(st, op, id), op, id),
{
    let st1 = crate::simplify::rewrite_two(st, op, id);
    let (s1, a) = activate(st, op.lhs());
    let (s2, b) = activate(s1, op.rhs());
    assert(st1.out[st.out.len() as int] == op.with_slots(id, a, b));
}

/// A step of the walk keeps the record of the operations passed before.
#[verifier::rlimit(40)]
proof fn lemma_step_traced(ops: Seq<SsaOp>, choices: Seq<Choice>, k: int, st: Pruning)
    requires
        well_formed(ops),
        fits(ops, k, st, None),
        traced(ops, choices, k, st),
        0 <= k < ops.len(),
    ensures
        traced(ops, choices, k + 1, step(st, ops[k], choices)),
{
    let st1 = step(st, ops[k], choices);
    lemma_step_frame(ops, choices, k, st);
    lemma_step_explained(ops, choices, k, st);
    assert(st1.bind[0] == st.bind[0]);
    assert forall|j: int| 0 <= j < k + 1 implies explained(
        st1,
        #[trigger] ops[j],
        choice_at(ops, choices, j),
    ) by {
        if j < k {
            let op = ops[j];
            let c = choice_at(ops, choices, j);
            assert(explained(st, op, c));
            // The step writes to slots that the operation at `k` reads, and
            // those are written further down the tape.
            assert(!ops[k].reads(ops[j].out()));
            assert(st1.bind[op.out() as int] == st.bind[op.out() as int]);
            let id = st.bind[op.out() as int];
            if id != SENTINEL {
                if op.shape().arity() >= 1 {
                    assert(st.bind[op.lhs() as int] != SENTINEL ==> st1.bind[op.lhs() as int]
                        == st.bind[op.lhs() as int]);
                }
                if op.shape().arity() == 2 {
                    assert(st.bind[op.rhs() as int] != SENTINEL ==> st1.bind[op.rhs() as int]
                        == st.bind[op.rhs() as int]);
                }
            }
        }
    }
}

/// The walk keeps a record of every operation that it has passed.
proof fn lemma_prune_traced(ops: Seq<SsaOp>, choices: Seq<Choice>, k: nat)
    requires
        well_formed(ops),
        0 < ops.len(),
        k <= ops.len(),
    ensures
        traced(ops, choices, k as int, prune(ops, choices, k)),
    decreases k,
{
    if k > 0 {
        lemma_prune_traced(ops, choices, (k - 1) as nat);
        lemma_prune_fits(ops, choices, (k - 1) as nat);
        lemma_step_traced(ops, choices, k - 1, prune(ops, choices, (k - 1) as nat));
    }
}

/// Where an operation is part of a well-formed tape, the value in the slot
/// that it writes is computed from the values in its operands.
proof fn lemma_emitted_value<V>(out: Seq<SsaOp>, op: SsaOp, alg: Algebra<V>)
    requires
        well_formed(out),
        emitted(out, op),
    ensures
        eval(slot_term(out, op.out()), alg) == op.shape().compute(
            alg,
            eval(slot_term(out, op.lhs()), alg),
            eval(slot_term(out, op.rhs()), alg),
        ),
{
    let j = choose|j: int| 0 <= j < out.len() && #[trigger] out[j] == op;
    lemma_slot_term(out, j);
    lemma_eval_apply(op.shape(), slot_term(out, op.lhs()), slot_term(out, op.rhs()), alg);
}

/// The source slot `s` has the same value in the result as in the source,
/// if it has a slot there.
pub open spec fn agrees<V>(ops: Seq<SsaOp>, st: Pruning, alg: Algebra<V>, s: u32) -> bool {
    st.bind[s as int] != SENTINEL ==> eval(slot_term(st.out, st.bind[s as int]), alg) == eval(
        slot_term(ops, s),
        alg,
    )
}

/// A slot that stands for a source slot has the value of that slot.
proof fn lemma_forwarded_value<V>(
    ops: Seq<SsaOp>,
    st: Pruning,
    alg: Algebra<V>,
    id: u32,
    src: u32,
)
    requires
        well_formed(st.out),
        forwarded(st, id, src),
        agrees(ops, st, alg, src),
    ensures
        eval(slot_term(st.out, id), alg) == eval(slot_term(ops, src), alg),
{
    if st.bind[src as int] != id {
        lemma_emitted_value(st.out, SsaOp::CopyReg(id, st.bind[src as int]), alg);
    }
}

/// An operation that was kept computes in the result what it computes in
/// the source, if its operands have the same values in both.
proof fn lemma_kept_value<V>(ops: Seq<SsaOp>, st: Pruning, alg: Algebra<V>, k: int)
    requires
        well_formed(ops),
        well_formed(st.out),
        0 <= k < ops.len(),
        st.bind[ops[k].out() as int] != SENTINEL,
        kept(st, ops[k], st.bind[ops[k].out() as int]),
        ops[k].shape().arity() >= 1 ==> agrees(ops, st, alg, ops[k].lhs()),
        ops[k].shape().arity() == 2 ==> agrees(ops, st, alg, ops[k].rhs()),
    ensures
        agrees(ops, st, alg, ops[k].out()),
{
    let op = ops[k];
    let id = st.bind[op.out() as int];
    let a = if op.shape().arity() >= 1 {
        st.bind[op.lhs() as int]
    } else {
        0
    };
    let b = if op.shape().arity() == 2 {
        st.bind[op.rhs() as int]
    } else {
        0
    };
    let kept_op = op.with_slots(id, a, b);
    lemma_with_slots(op, id, a, b);
    lemma_emitted_value(st.out, kept_op, alg);
    lemma_slot_term(ops, k);
    lemma_eval_apply(op.shape(), slot_term(ops, op.lhs()), slot_term(ops, op.rhs()), alg);
    let va = eval(slot_term(st.out, kept_op.lhs()), alg);
    let vb = eval(slot_term(st.out, kept_op.rhs()), alg);
    let wa = eval(slot_term(ops, op.lhs()), alg);
    let wb = eval(slot_term(ops, op.rhs()), alg);
    assert(op.shape().arity() >= 1 ==> va == wa);
    assert(op.shape().arity() == 2 ==> vb == wb);
    assert(op.shape().compute(alg, va, vb) == op.shape().compute(alg, wa, wb));
}

/// The operation at position `k` has the same value in the result as in
/// the source, if its operands have.
proof fn lemma_value_at<V>(
    ops: Seq<SsaOp>,
    choices: Seq<Choice>,
    st: Pruning,
    alg: Algebra<V>,
    k: int,
)
    requires
        well_formed(ops),
        well_formed(st.out),
        0 <= k < ops.len(),
        explained(st, ops[k], choice_at(ops, choices, k)),
        ops[k].shape().has_choice() ==> holds(ops, alg, k, choice_at(ops, choices, k)),
        ops[k].shape().arity() >= 1 ==> agrees(ops, st, alg, ops[k].lhs()),
        ops[k].shape().arity() == 2 ==> agrees(ops, st, alg, ops[k].rhs()),
    ensures
        agrees(ops, st, alg, ops[k].out()),
{
    let op = ops[k];
    let id = st.bind[op.out() as int];
    let c = choice_at(ops, choices, k);
    if id != SENTINEL {
        match op.shape() {
            Shape::Copy => {
                lemma_forwarded_value(ops, st, alg, id, op.lhs());
                lemma_slot_term(ops, k);
            },
            Shape::RegImm(kind, imm) => {
                if kind.selects() && c == Choice::Left {
                    lemma_forwarded_value(ops, st, alg, id, op.lhs());
                } else if kind.selects() && c == Choice::Right {
                    lemma_emitted_value(st.out, SsaOp::CopyImm(id, imm), alg);
                } else {
                    lemma_kept_value(ops, st, alg, k);
                }
            },
            Shape::Binary(kind) => {
                if kind.selects() && c == Choice::Left {
                    lemma_forwarded_value(ops, st, alg, id, op.lhs());
                } else if kind.selects() && c == Choice::Right {
                    lemma_forwarded_value(ops, st, alg, id, op.rhs());
                } else {
                    lemma_kept_value(ops, st, alg, k);
                }
            },
            _ => {
                lemma_kept_value(ops, st, alg, k);
            },
        }
    }
}

/// Under a reading for which the choices hold, every source slot that has
/// a slot in the result has the same value there.
proof fn lemma_values_agree<V>(
    ops: Seq<SsaOp>,
    choices: Seq<Choice>,
    alg: Algebra<V>,
    k: int,
)
    requires
        well_formed(ops),
        0 < ops.len(),
        honors(ops, alg, choices),
        0 <= k <= ops.len(),
    ensures
        forall|j: int|
            k <= j < ops.len() ==> agrees(
                ops,
                prune(ops, choices, ops.len()),
                alg,
                (#[trigger] ops[j]).out(),
            ),
    decreases ops.len() - k,
{
    if k < ops.len() {
        lemma_values_agree(ops, choices, alg, k + 1);
        let st = prune(ops, choices, ops.len());
        let op = ops[k];
        lemma_prune_traced(ops, choices, ops.len());
        lemma_simplified_well_formed(ops, choices);
        assert(explained(st, ops[k], choice_at(ops, choices, k)));
        if op.shape().arity() >= 1 {
            lemma_operand_below(ops, k, op.lhs());
            let j = choose|j: int| k < j < ops.len() && (#[trigger] ops[j]).out() == op.lhs();
            assert(agrees(ops, st, alg, ops[j].out()));
        }
        if op.shape().arity() == 2 {
            lemma_operand_below(ops, k, op.rhs());
            let j = choose|j: int| k < j < ops.len() && (#[trigger] ops[j]).out() == op.rhs();
            assert(agrees(ops, st, alg, ops[j].out()));
        }
        lemma_value_at(ops, choices, st, alg, k);
    }
}

/// An operand of the operation at position `k` is written by an operation
/// further down the tape.
proof fn lemma_operand_below(ops: Seq<SsaOp>, k: int, a: u32)
    requires
        well_formed(ops),
        0 <= k < ops.len(),
        ops[k].reads(a),
    ensures
        exists|j: int| k < j < ops.len() && (#[trigger] ops[j]).out() == a,
{
    assert(written(ops, a as int));
    let j = choose|j: int| 0 <= j < ops.len() && (#[trigger] ops[j]).out() == a;
    assert(!ops[k].reads(ops[j].out()) || j > k);
}

/// Simplification keeps the value of a tape: under every reading of the
/// kinds for which each choice is right for its `min` or `max`, the
/// simplified tape computes the value that the source tape computes.
pub proof fn lemma_simplified_same_value<V>(
    ops: Seq<SsaOp>,
    choices: Seq<Choice>,
    alg: Algebra<V>,
)
    requires
        well_formed(ops),
        0 < ops.len(),
        honors(ops, alg, choices),
    ensures
        eval(denote(simplified(ops, choices)), alg) == eval(denote(ops), alg),
{
    lemma_values_agree(ops, choices, alg, 0);
    lemma_prune_traced(ops, choices, ops.len());
    assert(ops[0].out() == 0);
}

/// Keeping every choice keeps the value of a tape under every reading of
/// the kinds.
pub proof fn lemma_keep_all_same_value<V>(ops: Seq<SsaOp>, choices: Seq<Choice>, alg: Algebra<V>)
    requires
        well_formed(ops),
        0 < ops.len(),
        forall|i: int| 0 <= i < choices.len() ==> choices[i] == Choice::Both,
        choices.len() == count_choices(ops),
    ensures
        eval(denote(simplified(ops, choices)), alg) == eval(denote(ops), alg),
{
    assert forall|k: int| 0 <= k < ops.len() && (#[trigger] ops[k]).shape().has_choice() implies holds(
        ops,
        alg,
        k,
        choice_at(ops, choices, k),
    ) by {
        crate::simplify::lemma_used_bound(ops, k + 1);
        crate::simplify::lemma_used_next(ops, k);
    }
    lemma_simplified_same_value(ops, choices, alg);
}

/// Every slot that one of the first `k` operations reads has a slot in the
/// result, and every `min` and `max` among them was kept.
pub open spec fn all_reached(ops: Seq<SsaOp>, k: int, st: Pruning) -> bool {
    &&& st.bind[0] != SENTINEL
    &&& st.kept == count_choices(ops.take(k))
    &&& forall|j: int, s: u32|
        0 <= j < k && #[trigger] ops[j].reads(s) ==> st.bind[s as int] != SENTINEL
}

/// Where every choice is kept, a step of the walk reaches the operation
/// that it passes.
proof fn lemma_all_step(ops: Seq<SsaOp>, choices: Seq<Choice>, k: int, st: Pruning)
    requires
        well_formed(ops),
        fits(ops, k, st, None),
        all_reached(ops, k, st),
        0 <= k < ops.len(),
        forall|i: int| 0 <= i < choices.len() ==> choices[i] == Choice::Both,
        choices.len() == count_choices(ops),
    ensures
        all_reached(ops, k + 1, step(st, ops[k], choices)),
{
    let op = ops[k];
    let st1 = step(st, op, choices);
    let id = st.bind[op.out() as int];
    lemma_step_frame(ops, choices, k, st);
    crate::simplify::lemma_used_next(ops, k);
    crate::simplify::lemma_used_bound(ops, k + 1);
    assert(id != SENTINEL) by {
        if k > 0 {
            assert(crate::ssa::wanted(ops, k));
            let j = choose|j: int| 0 <= j < k && (#[trigger] ops[j]).reads(ops[k].out());
            assert(ops[j].reads(op.out()));
        }
    }
    if op.shape().has_choice() {
        assert(next_choice(st, choices) == Choice::Both);
    }
    assert(st1.kept == count_choices(ops.take(k + 1))) by {
        let a = activate(st, op.lhs()).1;
        let chosen = Pruning { used: st.used + 1, ..st };
        let b = activate(activate(st, op.lhs()).0, op.rhs()).1;
        lemma_with_slots(op, id, 0, 0);
        lemma_with_slots(op, id, a, 0);
        lemma_with_slots(op, id, a, b);
    }
    assert forall|j: int, s: u32| 0 <= j < k + 1 && #[trigger] ops[j].reads(s) implies st1.bind[s as int]
        != SENTINEL by {
        if j < k {
            assert(st.bind[s as int] != SENTINEL);
        }
    }
}

/// Where every choice is kept, the walk reaches every operation.
proof fn lemma_all_reached(ops: Seq<SsaOp>, choices: Seq<Choice>, k: nat)
    requires
        well_formed(ops),
        0 < ops.len(),
        k <= ops.len(),
        forall|i: int| 0 <= i < choices.len() ==> choices[i] == Choice::Both,
        choices.len() == count_choices(ops),
    ensures
        all_reached(ops, k as int, prune(ops, choices, k)),
    decreases k,
{
    if k == 0 {
        assert(ops.take(0) == Seq::<SsaOp>::empty());
    } else {
        lemma_all_reached(ops, choices, (k - 1) as nat);
        lemma_prune_fits(ops, choices, (k - 1) as nat);
        lemma_all_step(ops, choices, k - 1, prune(ops, choices, (k - 1) as nat));
    }
}

/// Keeping every choice keeps every `min` and `max`: the simplified tape
/// holds as many as the source.
pub proof fn lemma_keep_all_same_count(ops: Seq<SsaOp>, choices: Seq<Choice>)
    requires
        well_formed(ops),
        0 < ops.len(),
        forall|i: int| 0 <= i < choices.len() ==> choices[i] == Choice::Both,
        choices.len() == count_choices(ops),
    ensures
        count_choices(simplified(ops, choices)) == count_choices(ops),
        prune(ops, choices, ops.len()).kept == count_choices(ops),
{
    lemma_all_reached(ops, choices, ops.len());
    lemma_simplified_well_formed(ops, choices);
    assert(ops.take(ops.len() as int) == ops);
}

} // verus!
