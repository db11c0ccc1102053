//! What simplification does to a single-assignment tape, stated on
//! sequences, and why the result is again a single-assignment tape.
use vstd::prelude::*;
use crate::choice::Choice;
use crate::op::Shape;
use crate::ssa::{
    awaited, count_choices, lemma_count_push, vars_below, wanted, well_formed, written,
};
use crate::ssa_op::{lemma_with_slots, SsaOp};

verus! {

/// Marks a slot of the source tape that has no slot in the result.
pub const SENTINEL: u32 = u32::MAX;

/// The state of a simplification that has walked part of the source tape.
pub struct Pruning {
    /// For each slot of the source, its slot in the result or `SENTINEL`
    pub bind: Seq<u32>,
    /// The number of slots of the result handed out
    pub count: nat,
    /// The number of choices read
    pub used: nat,
    /// The number of `min` and `max` operations kept
    pub kept: nat,
    /// The operations of the result, root first
    pub out: Seq<SsaOp>,
}

/// Before the walk: the root of the source is the root of the result.
pub open spec fn start(n: nat) -> Pruning {
    Pruning {
        bind: Seq::new(
            n,
            |i: int|
                if i == 0 {
                    0u32
                } else {
                    SENTINEL
                },
        ),
        count: 1,
        used: 0,
        kept: 0,
        out: Seq::empty(),
    }
}

/// Gives the source slot `a` a slot in the result unless it has one, and
/// returns that slot.
pub open spec fn activate(st: Pruning, a: u32) -> (Pruning, u32) {
    if st.bind[a as int] == SENTINEL {
        (
            Pruning { bind: st.bind.update(a as int, st.count as u32), count: st.count + 1, ..st },
            st.count as u32,
        )
    } else {
        (st, st.bind[a as int])
    }
}

/// Appends an operation to the result.
pub open spec fn emit(st: Pruning, op: SsaOp) -> Pruning {
    Pruning {
        out: st.out.push(op),
        kept: if op.shape().has_choice() {
            st.kept + 1
        } else {
            st.kept
        },
        ..st
    }
}

/// Lets the source slot `src` stand for the slot `id` of the result.
pub open spec fn alias_to(st: Pruning, src: u32, id: u32) -> Pruning {
    Pruning { bind: st.bind.update(src as int, id), ..st }
}

/// The slot `id` of the result is to hold what the source slot `src` holds:
/// if `src` has a slot already, a copy is emitted; if not, `src` is given
/// `id` itself and nothing is emitted.
pub open spec fn forward(st: Pruning, id: u32, src: u32) -> Pruning {
    if st.bind[src as int] != SENTINEL {
        emit(st, SsaOp::CopyReg(id, st.bind[src as int]))
    } else {
        alias_to(st, src, id)
    }
}

/// Emits an operation of one operand over the slots of the result.
pub open spec fn rewrite_one(st: Pruning, op: SsaOp, id: u32) -> Pruning {
    let (s1, a) = activate(st, op.lhs());
    emit(s1, op.with_slots(id, a, 0))
}

/// Emits an operation of two operands over the slots of the result.
pub open spec fn rewrite_two(st: Pruning, op: SsaOp, id: u32) -> Pruning {
    let (s1, a) = activate(st, op.lhs());
    let (s2, b) = activate(s1, op.rhs());
    emit(s2, op.with_slots(id, a, b))
}

/// The choice for the next `min` or `max` of the walk. Choices are
/// recorded in the order of evaluation and the walk starts at the root, so
/// it reads them from the far end.
pub open spec fn next_choice(st: Pruning, choices: Seq<Choice>) -> Choice {
    choices[choices.len() - 1 - st.used]
}

/// The state after the walk has passed the operation `op`.
///
/// An operation whose result has no slot in the result is dropped. A copy,
/// and a `min` or `max` of which one side was chosen, forwards that side;
/// where the immediate of a `min` or `max` was chosen, the immediate is
/// written. Every other operation is kept, over the slots of the result.
pub open spec fn step(st: Pruning, op: SsaOp, choices: Seq<Choice>) -> Pruning {
    let id = st.bind[op.out() as int];
    let chosen = Pruning { used: st.used + 1, ..st };
    if id == SENTINEL {
        if op.shape().has_choice() {
            chosen
        } else {
            st
        }
    } else {
        match op.shape() {
            Shape::Input(_) | Shape::Var(_) | Shape::Imm(_) => emit(st, op.with_slots(id, 0, 0)),
            Shape::Copy => forward(st, id, op.lhs()),
            Shape::Unary(_) | Shape::ImmReg(_, _) => rewrite_one(st, op, id),
            Shape::RegImm(k, imm) => if k.selects() {
                match next_choice(st, choices) {
                    Choice::Left => forward(chosen, id, op.lhs()),
                    Choice::Right => emit(chosen, SsaOp::CopyImm(id, imm)),
                    _ => rewrite_one(chosen, op, id),
                }
            } else {
                rewrite_one(st, op, id)
            },
            Shape::Binary(k) => if k.selects() {
                match next_choice(st, choices) {
                    Choice::Left => forward(chosen, id, op.lhs()),
                    Choice::Right => forward(chosen, id, op.rhs()),
                    _ => rewrite_two(chosen, op, id),
                }
            } else {
                rewrite_two(st, op, id)
            },
        }
    }
}

/// The state after the walk has passed the first `k` operations of `ops`.
pub open spec fn prune(ops: Seq<SsaOp>, choices: Seq<Choice>, k: nat) -> Pruning
    decreases k,
{
    if k == 0 {
        start(ops.len())
    } else {
        step(prune(ops, choices, (k - 1) as nat), ops[k - 1], choices)
    }
}

/// The operations of the simplified tape.
pub open spec fn simplified(ops: Seq<SsaOp>, choices: Seq<Choice>) -> Seq<SsaOp> {
    prune(ops, choices, ops.len()).out
}

/// What a step emits comes after what was emitted before.
pub proof fn lemma_step_grows(st: Pruning, op: SsaOp, choices: Seq<Choice>)
    ensures
        st.out.len() <= step(st, op, choices).out.len(),
        step(st, op, choices).out.take(st.out.len() as int) == st.out,
{
    let r = step(st, op, choices).out;
    if r != st.out {
        assert(r.drop_last() == st.out);
    }
    assert(r.take(st.out.len() as int) =~= st.out);
}

/// What the walk has emitted after `k` operations is the beginning of what
/// it has emitted after `n`.
pub proof fn lemma_prune_grows(ops: Seq<SsaOp>, choices: Seq<Choice>, k: nat, n: nat)
    requires
        k <= n,
    ensures
        prune(ops, choices, k).out.len() <= prune(ops, choices, n).out.len(),
        prune(ops, choices, n).out.take(prune(ops, choices, k).out.len() as int) == prune(
            ops,
            choices,
            k,
        ).out,
    decreases n - k,
{
    let a = prune(ops, choices, k).out;
    let c = prune(ops, choices, n).out;
    if k < n {
        let b = prune(ops, choices, (n - 1) as nat).out;
        lemma_prune_grows(ops, choices, k, (n - 1) as nat);
        lemma_step_grows(prune(ops, choices, (n - 1) as nat), ops[n - 1], choices);
        assert forall|i: int| 0 <= i < a.len() implies c[i] == a[i] by {
            assert(b.take(a.len() as int)[i] == b[i]);
            assert(c.take(b.len() as int)[i] == c[i]);
        }
    }
    assert(c.take(a.len() as int) =~= a);
}

/// No operation before position `k` writes slot `i`.
pub open spec fn unwritten(ops: Seq<SsaOp>, i: int, k: int) -> bool {
    forall|j: int| 0 <= j < k && j < ops.len() ==> (#[trigger] ops[j]).out() != i
}

/// The source slot `i` has a slot in the result, and the walk has not
/// reached the operation that writes it.
pub open spec fn pending(ops: Seq<SsaOp>, bind: Seq<u32>, k: int, i: int) -> bool {
    0 <= i < bind.len() && bind[i] != SENTINEL && unwritten(ops, i, k)
}

/// The source slots that are pending.
pub open spec fn pending_set(ops: Seq<SsaOp>, bind: Seq<u32>, k: int) -> Set<int> {
    Set::new(|i: int| pending(ops, bind, k, i))
}

/// Some pending source slot has the slot `s` of the result.
pub open spec fn held(ops: Seq<SsaOp>, bind: Seq<u32>, k: int, s: int) -> bool {
    exists|i: int| #[trigger] pending(ops, bind, k, i) && bind[i] == s
}

/// The slot `s` of the result is accounted for: an operation of the result
/// writes it, a pending source slot has it, or it is the one in hand.
pub open spec fn covered(
    ops: Seq<SsaOp>,
    st: Pruning,
    k: int,
    hole: Option<u32>,
    s: int,
) -> bool {
    hole == Some(s as u32) || written(st.out, s) || held(ops, st.bind, k, s)
}

/// What holds of the state when the walk has passed `k` operations. While
/// an operation is being worked on, `hole` is the slot of the result that
/// its own result had: it is neither written nor pending.
pub open spec fn fits(ops: Seq<SsaOp>, k: int, st: Pruning, hole: Option<u32>) -> bool {
    let n = ops.len() as int;
    let out = st.out;
    let bind = st.bind;
    let owed: int = if hole is Some {
        1
    } else {
        0
    };
    &&& bind.len() == n
    &&& 0 <= k <= n
    &&& st.count <= n
    &&& out.len() + owed <= k
    &&& st.used == count_choices(ops.take(k))
    &&& st.kept == count_choices(out)
    &&& forall|i: int| 0 <= i < n && (#[trigger] bind[i]) != SENTINEL ==> bind[i] < st.count
    &&& forall|i: int, j: int|
        #![trigger pending(ops, bind, k, i), pending(ops, bind, k, j)]
        pending(ops, bind, k, i) && pending(ops, bind, k, j) && i != j ==> bind[i] != bind[j]
    &&& forall|j: int|
        0 <= j < out.len() ==> (#[trigger] out[j]).out() < st.count && (out[j].shape().arity() >= 1
            ==> out[j].lhs() < st.count) && (out[j].shape().arity() == 2 ==> out[j].rhs()
            < st.count)
    &&& forall|j: int, i: int|
        #![trigger out[j], pending(ops, bind, k, i)]
        0 <= j < out.len() && pending(ops, bind, k, i) ==> out[j].out() != bind[i]
    &&& forall|j: int, j2: int|
        0 <= j < j2 < out.len() ==> (#[trigger] out[j]).out() != (#[trigger] out[j2]).out()
    &&& forall|j: int, j2: int|
        0 <= j <= j2 < out.len() ==> !(#[trigger] out[j2]).reads((#[trigger] out[j]).out())
    &&& hole matches Some(h) ==> {
        &&& h < st.count
        &&& forall|j: int| 0 <= j < out.len() ==> (#[trigger] out[j]).out() != h
        &&& forall|i: int| #[trigger] pending(ops, bind, k, i) ==> bind[i] != h
    }
    &&& forall|s: int| 0 <= s < st.count ==> #[trigger] covered(ops, st, k, hole, s)
    &&& out.len() > 0 ==> out[0].out() == 0
    &&& out.len() == 0 ==> (hole is None ==> st.count == 1) && (hole matches Some(h) ==> h == 0)
    &&& pending_set(ops, bind, k).finite()
    &&& st.count == out.len() + pending_set(ops, bind, k).len() + owed
}

/// The source slots that no operation before position `k` writes.
spec fn unwritten_set(ops: Seq<SsaOp>, k: int) -> Set<int> {
    Set::new(|i: int| 0 <= i < ops.len() && unwritten(ops, i, k))
}

/// Each operation writes a slot of its own, so `k` operations leave
/// `n - k` slots unwritten.
proof fn lemma_unwritten_count(ops: Seq<SsaOp>, k: int)
    requires
        well_formed(ops),
        0 <= k <= ops.len(),
    ensures
        unwritten_set(ops, k).finite(),
        unwritten_set(ops, k).len() == ops.len() - k,
    decreases k,
{
    if k == 0 {
        vstd::set_lib::lemma_int_range(0, ops.len() as int);
        assert(unwritten_set(ops, 0) =~= vstd::set_lib::set_int_range(0, ops.len() as int));
    } else {
        lemma_unwritten_count(ops, k - 1);
        let i = ops[k - 1].out() as int;
        assert(unwritten(ops, i, k - 1));
        assert(unwritten_set(ops, k - 1).contains(i));
        assert(unwritten_set(ops, k) =~= unwritten_set(ops, k - 1).remove(i)) by {
            assert forall|x: int| unwritten_set(ops, k).contains(x) implies unwritten_set(
                ops,
                k - 1,
            ).remove(i).contains(x) by {
                assert(ops[k - 1].out() != x);
            }
        }
    }
}

/// No more source slots are pending than are unwritten.
proof fn lemma_pending_bound(ops: Seq<SsaOp>, bind: Seq<u32>, k: int)
    requires
        well_formed(ops),
        bind.len() == ops.len(),
        0 <= k <= ops.len(),
    ensures
        pending_set(ops, bind, k).finite(),
        pending_set(ops, bind, k).len() <= ops.len() - k,
{
    lemma_unwritten_count(ops, k);
    assert(pending_set(ops, bind, k).subset_of(unwritten_set(ops, k)));
    vstd::set_lib::lemma_len_subset(pending_set(ops, bind, k), unwritten_set(ops, k));
}

/// Passing one more operation adds one to the choices read if it is a
/// `min` or `max`.
pub proof fn lemma_used_next(ops: Seq<SsaOp>, k: int)
    requires
        0 <= k < ops.len(),
    ensures
        count_choices(ops.take(k + 1)) == count_choices(ops.take(k)) + if ops[k].shape().has_choice() {
            1nat
        } else {
            0nat
        },
{
    assert(ops.take(k + 1) == ops.take(k).push(ops[k]));
    lemma_count_push(ops.take(k), ops[k]);
}

/// The first `k` operations hold no more choices than the whole tape.
pub proof fn lemma_used_bound(ops: Seq<SsaOp>, k: int)
    requires
        0 <= k <= ops.len(),
    ensures
        count_choices(ops.take(k)) <= count_choices(ops),
    decreases ops.len() - k,
{
    if k == ops.len() {
        assert(ops.take(k) == ops);
    } else {
        lemma_used_next(ops, k);
        lemma_used_bound(ops, k + 1);
    }
}

/// The state fits before the walk.
proof fn lemma_start(ops: Seq<SsaOp>)
    requires
        well_formed(ops),
        ops.len() > 0,
    ensures
        fits(ops, 0, start(ops.len()), None),
{
    let st = start(ops.len());
    let p = pending_set(ops, st.bind, 0);
    assert(ops.take(0) == Seq::<SsaOp>::empty());
    assert(pending(ops, st.bind, 0, 0));
    assert(p =~= Set::<int>::empty().insert(0));
    assert forall|s: int| 0 <= s < st.count implies #[trigger] covered(ops, st, 0, None, s) by {
        assert(held(ops, st.bind, 0, 0));
    }
}

/// Passing an operation whose result has no slot in the result.
proof fn lemma_dead(ops: Seq<SsaOp>, k: int, st: Pruning, st1: Pruning)
    requires
        well_formed(ops),
        fits(ops, k, st, None),
        k < ops.len(),
        st.bind[ops[k].out() as int] == SENTINEL,
        st1 == (Pruning { used: count_choices(ops.take(k + 1)), ..st }),
    ensures
        fits(ops, k + 1, st1, None),
{
    let bind = st.bind;
    let i = ops[k].out() as int;
    assert forall|x: int| pending(ops, bind, k, x) == pending(ops, bind, k + 1, x) by {
        if pending(ops, bind, k, x) {
            assert(x != i);
        }
    }
    assert(pending_set(ops, bind, k) =~= pending_set(ops, bind, k + 1));
    assert forall|x: int, y: int|
        #![trigger pending(ops, bind, k + 1, x), pending(ops, bind, k + 1, y)]
        pending(ops, bind, k + 1, x) && pending(ops, bind, k + 1, y) && x != y implies bind[x]
        != bind[y] by {
        assert(pending(ops, bind, k, x) && pending(ops, bind, k, y));
    }
    assert forall|j: int, x: int|
        #![trigger st.out[j], pending(ops, bind, k + 1, x)]
        0 <= j < st.out.len() && pending(ops, bind, k + 1, x) implies st.out[j].out()
        != bind[x] by {
        assert(pending(ops, bind, k, x));
    }
    assert forall|s: int| 0 <= s < st1.count implies #[trigger] covered(
        ops,
        st1,
        k + 1,
        None,
        s,
    ) by {
        assert(covered(ops, st, k, None, s));
        if held(ops, bind, k, s) {
            let x = choose|x: int| #[trigger] pending(ops, bind, k, x) && bind[x] == s;
            assert(pending(ops, bind, k + 1, x));
        }
    }
}

/// Taking up an operation whose result has a slot in the result: that
/// slot is now in hand.
proof fn lemma_retire(ops: Seq<SsaOp>, k: int, st: Pruning, st1: Pruning)
    requires
        well_formed(ops),
        fits(ops, k, st, None),
        k < ops.len(),
        st.bind[ops[k].out() as int] != SENTINEL,
        st1 == (Pruning { used: count_choices(ops.take(k + 1)), ..st }),
    ensures
        fits(ops, k + 1, st1, Some(st.bind[ops[k].out() as int])),
        st1.out.len() == 0 ==> st1.count == 1,
{
    let bind = st.bind;
    let i = ops[k].out() as int;
    let h = bind[i];
    assert(unwritten(ops, i, k));
    assert(pending(ops, bind, k, i));
    assert forall|x: int| pending(ops, bind, k + 1, x) == (pending(ops, bind, k, x) && x != i) by {
        if pending(ops, bind, k, x) && x != i {
            assert(unwritten(ops, x, k + 1));
        }
    }
    assert(pending_set(ops, bind, k + 1) =~= pending_set(ops, bind, k).remove(i));
    assert forall|x: int, y: int|
        #![trigger pending(ops, bind, k + 1, x), pending(ops, bind, k + 1, y)]
        pending(ops, bind, k + 1, x) && pending(ops, bind, k + 1, y) && x != y implies bind[x]
        != bind[y] by {
        assert(pending(ops, bind, k, x) && pending(ops, bind, k, y));
    }
    assert forall|j: int, x: int|
        #![trigger st.out[j], pending(ops, bind, k + 1, x)]
        0 <= j < st.out.len() && pending(ops, bind, k + 1, x) implies st.out[j].out()
        != bind[x] by {
        assert(pending(ops, bind, k, x));
    }
    assert forall|s: int| 0 <= s < st1.count implies #[trigger] covered(
        ops,
        st1,
        k + 1,
        Some(h),
        s,
    ) by {
        assert(covered(ops, st, k, None, s));
        if held(ops, bind, k, s) {
            let x = choose|x: int| #[trigger] pending(ops, bind, k, x) && bind[x] == s;
            if x != i {
                assert(pending(ops, bind, k + 1, x));
            }
        }
    }
    assert forall|x: int| #[trigger] pending(ops, bind, k + 1, x) implies bind[x] != h by {
        assert(pending(ops, bind, k, x));
    }
    assert forall|j: int| 0 <= j < st.out.len() implies (#[trigger] st.out[j]).out() != h by {}
}

/// Giving an operand a slot in the result while an operation is being
/// worked on.
proof fn lemma_activate(ops: Seq<SsaOp>, k: int, st: Pruning, h: u32, a: u32)
    requires
        well_formed(ops),
        fits(ops, k, st, Some(h)),
        a < ops.len(),
        unwritten(ops, a as int, k),
    ensures
        fits(ops, k, activate(st, a).0, Some(h)),
        pending(ops, activate(st, a).0.bind, k, a as int),
        activate(st, a).0.bind[a as int] == activate(st, a).1,
        activate(st, a).0.out == st.out,
        activate(st, a).0.used == st.used,
        forall|x: int| #[trigger]
            pending(ops, st.bind, k, x) ==> pending(ops, activate(st, a).0.bind, k, x) && activate(
                st,
                a,
            ).0.bind[x] == st.bind[x],
{
    let bind = st.bind;
    let st1 = activate(st, a).0;
    let bind1 = st1.bind;
    if bind[a as int] == SENTINEL {
        assert forall|x: int| pending(ops, bind1, k, x) == (pending(ops, bind, k, x) || x
            == a) by {}
        assert(pending_set(ops, bind1, k) =~= pending_set(ops, bind, k).insert(a as int));
        assert(!pending_set(ops, bind, k).contains(a as int));
        lemma_pending_bound(ops, bind1, k);
        assert forall|x: int, y: int|
            #![trigger pending(ops, bind1, k, x), pending(ops, bind1, k, y)]
            pending(ops, bind1, k, x) && pending(ops, bind1, k, y) && x != y implies bind1[x]
            != bind1[y] by {
            if x != a {
                assert(pending(ops, bind, k, x));
            }
            if y != a {
                assert(pending(ops, bind, k, y));
            }
        }
        assert forall|j: int, x: int|
            #![trigger st1.out[j], pending(ops, bind1, k, x)]
            0 <= j < st1.out.len() && pending(ops, bind1, k, x) implies st1.out[j].out()
            != bind1[x] by {
            if x != a {
                assert(pending(ops, bind, k, x));
            }
        }
        assert forall|x: int| #[trigger] pending(ops, bind1, k, x) implies bind1[x] != h by {
            if x != a {
                assert(pending(ops, bind, k, x));
            }
        }
        assert forall|s: int| 0 <= s < st1.count implies #[trigger] covered(
            ops,
            st1,
            k,
            Some(h),
            s,
        ) by {
            if s == st.count {
                assert(pending(ops, bind1, k, a as int));
            } else {
                assert(covered(ops, st, k, Some(h), s));
                if held(ops, bind, k, s) {
                    let x = choose|x: int| #[trigger] pending(ops, bind, k, x) && bind[x] == s;
                    assert(pending(ops, bind1, k, x));
                }
            }
        }
    }
}

/// Writing the slot in hand finishes the work on an operation.
proof fn lemma_emit(ops: Seq<SsaOp>, k: int, st: Pruning, h: u32, op: SsaOp, a: int, b: int)
    requires
        well_formed(ops),
        fits(ops, k, st, Some(h)),
        op.out() == h,
        op.shape().arity() >= 1 ==> pending(ops, st.bind, k, a) && op.lhs() == st.bind[a],
        op.shape().arity() == 2 ==> pending(ops, st.bind, k, b) && op.rhs() == st.bind[b],
    ensures
        fits(ops, k, emit(st, op), None),
{
    let st1 = emit(st, op);
    let out = st.out;
    let out1 = st1.out;
    let bind = st.bind;
    let m = out.len() as int;
    lemma_count_push(out, op);
    assert forall|j: int, j2: int| 0 <= j <= j2 < out1.len() implies !(#[trigger] out1[j2]).reads(
        (#[trigger] out1[j]).out(),
    ) by {
        if j2 == m && j < m {
            assert(out1[j] == out[j]);
        }
    }
    assert forall|s: int| 0 <= s < st1.count implies #[trigger] covered(ops, st1, k, None, s) by {
        assert(covered(ops, st, k, Some(h), s));
        if s == h {
            assert(out1[m].out() == s);
        } else if written(out, s) {
            let j = choose|j: int| 0 <= j < out.len() && (#[trigger] out[j]).out() == s;
            assert(out1[j].out() == s);
        }
    }
    assert forall|j: int, x: int|
        #![trigger out1[j], pending(ops, bind, k, x)]
        0 <= j < out1.len() && pending(ops, bind, k, x) implies out1[j].out() != bind[x] by {
        if j < m {
            assert(out1[j] == out[j]);
        }
    }
}

/// Letting a source slot stand for the slot in hand finishes the work on
/// an operation without writing anything.
proof fn lemma_alias(ops: Seq<SsaOp>, k: int, st: Pruning, h: u32, src: u32)
    requires
        well_formed(ops),
        fits(ops, k, st, Some(h)),
        src < ops.len(),
        st.bind[src as int] == SENTINEL,
        unwritten(ops, src as int, k),
        st.out.len() == 0 ==> st.count == 1,
    ensures
        fits(ops, k, alias_to(st, src, h), None),
{
    let bind = st.bind;
    let st1 = alias_to(st, src, h);
    let bind1 = st1.bind;
    assert forall|x: int| pending(ops, bind1, k, x) == (pending(ops, bind, k, x) || x == src) by {}
    assert(pending_set(ops, bind1, k) =~= pending_set(ops, bind, k).insert(src as int));
    assert(!pending_set(ops, bind, k).contains(src as int));
    assert forall|x: int, y: int|
        #![trigger pending(ops, bind1, k, x), pending(ops, bind1, k, y)]
        pending(ops, bind1, k, x) && pending(ops, bind1, k, y) && x != y implies bind1[x]
        != bind1[y] by {
        if x != src {
            assert(pending(ops, bind, k, x));
        }
        if y != src {
            assert(pending(ops, bind, k, y));
        }
    }
    assert forall|j: int, x: int|
        #![trigger st1.out[j], pending(ops, bind1, k, x)]
        0 <= j < st1.out.len() && pending(ops, bind1, k, x) implies st1.out[j].out()
        != bind1[x] by {
        if x != src {
            assert(pending(ops, bind, k, x));
        }
    }
    assert forall|s: int| 0 <= s < st1.count implies #[trigger] covered(ops, st1, k, None, s) by {
        if s == h {
            assert(pending(ops, bind1, k, src as int));
        } else {
            assert(covered(ops, st, k, Some(h), s));
            if held(ops, bind, k, s) {
                let x = choose|x: int| #[trigger] pending(ops, bind, k, x) && bind[x] == s;
                assert(pending(ops, bind1, k, x));
            }
        }
    }
}

/// An operand of the operation at position `k` is written further down
/// the tape.
proof fn lemma_operand_unwritten(ops: Seq<SsaOp>, k: int, a: u32)
    requires
        well_formed(ops),
        0 <= k < ops.len(),
        ops[k].reads(a),
    ensures
        a < ops.len(),
        unwritten(ops, a as int, k + 1),
{
    assert forall|j: int| 0 <= j < k + 1 && j < ops.len() implies (#[trigger] ops[j]).out()
        != a by {
        assert(!ops[k].reads(ops[j].out()));
    }
}

/// Forwarding a source slot to the slot in hand.
proof fn lemma_forward(ops: Seq<SsaOp>, k: int, st: Pruning, h: u32, src: u32)
    requires
        well_formed(ops),
        fits(ops, k, st, Some(h)),
        src < ops.len(),
        unwritten(ops, src as int, k),
        st.out.len() == 0 ==> st.count == 1,
    ensures
        fits(ops, k, forward(st, h, src), None),
{
    if st.bind[src as int] != SENTINEL {
        let op = SsaOp::CopyReg(h, st.bind[src as int]);
        assert(pending(ops, st.bind, k, src as int));
        lemma_emit(ops, k, st, h, op, src as int, 0);
    } else {
        lemma_alias(ops, k, st, h, src);
    }
}

/// Keeping an operation of one operand.
proof fn lemma_rewrite_one(ops: Seq<SsaOp>, k: int, st: Pruning, h: u32, op: SsaOp)
    requires
        well_formed(ops),
        fits(ops, k, st, Some(h)),
        op.shape().arity() == 1,
        op.lhs() < ops.len(),
        unwritten(ops, op.lhs() as int, k),
    ensures
        fits(ops, k, rewrite_one(st, op, h), None),
{
    let (s1, a) = activate(st, op.lhs());
    lemma_activate(ops, k, st, h, op.lhs());
    lemma_with_slots(op, h, a, 0);
    lemma_emit(ops, k, s1, h, op.with_slots(h, a, 0), op.lhs() as int, 0);
}

/// Keeping an operation of two operands.
proof fn lemma_rewrite_two(ops: Seq<SsaOp>, k: int, st: Pruning, h: u32, op: SsaOp)
    requires
        well_formed(ops),
        fits(ops, k, st, Some(h)),
        op.shape().arity() == 2,
        op.lhs() < ops.len(),
        op.rhs() < ops.len(),
        unwritten(ops, op.lhs() as int, k),
        unwritten(ops, op.rhs() as int, k),
    ensures
        fits(ops, k, rewrite_two(st, op, h), None),
{
    let (s1, a) = activate(st, op.lhs());
    lemma_activate(ops, k, st, h, op.lhs());
    let (s2, b) = activate(s1, op.rhs());
    lemma_activate(ops, k, s1, h, op.rhs());
    assert(pending(ops, s1.bind, k, op.lhs() as int));
    lemma_with_slots(op, h, a, b);
    lemma_emit(ops, k, s2, h, op.with_slots(h, a, b), op.lhs() as int, op.rhs() as int);
}

/// One step of the walk keeps the state fitting.
pub proof fn lemma_step(ops: Seq<SsaOp>, choices: Seq<Choice>, k: int, st: Pruning)
    requires
        well_formed(ops),
        fits(ops, k, st, None),
        k < ops.len(),
    ensures
        fits(ops, k + 1, step(st, ops[k], choices), None),
{
    let op = ops[k];
    let id = st.bind[op.out() as int];
    lemma_used_next(ops, k);
    let st1 = Pruning { used: count_choices(ops.take(k + 1)), ..st };
    if id == SENTINEL {
        lemma_dead(ops, k, st, st1);
    } else {
        lemma_retire(ops, k, st, st1);
        if op.shape().arity() >= 1 {
            lemma_operand_unwritten(ops, k, op.lhs());
        }
        if op.shape().arity() == 2 {
            lemma_operand_unwritten(ops, k, op.rhs());
        }
        match op.shape() {
            Shape::Input(_) | Shape::Var(_) | Shape::Imm(_) => {
                lemma_with_slots(op, id, 0, 0);
                lemma_emit(ops, k + 1, st1, id, op.with_slots(id, 0, 0), 0, 0);
            },
            Shape::Copy => {
                lemma_forward(ops, k + 1, st1, id, op.lhs());
            },
            Shape::Unary(_) | Shape::ImmReg(_, _) => {
                lemma_rewrite_one(ops, k + 1, st1, id, op);
            },
            Shape::RegImm(kind, imm) => {
                if kind.selects() {
                    match next_choice(st, choices) {
                        Choice::Left => {
                            lemma_forward(ops, k + 1, st1, id, op.lhs());
                        },
                        Choice::Right => {
                            lemma_emit(ops, k + 1, st1, id, SsaOp::CopyImm(id, imm), 0, 0);
                        },
                        _ => {
                            lemma_rewrite_one(ops, k + 1, st1, id, op);
                        },
                    }
                } else {
                    lemma_rewrite_one(ops, k + 1, st1, id, op);
                }
            },
            Shape::Binary(kind) => {
                if kind.selects() {
                    match next_choice(st, choices) {
                        Choice::Left => {
                            lemma_forward(ops, k + 1, st1, id, op.lhs());
                        },
                        Choice::Right => {
                            lemma_forward(ops, k + 1, st1, id, op.rhs());
                        },
                        _ => {
                            lemma_rewrite_two(ops, k + 1, st1, id, op);
                        },
                    }
                } else {
                    lemma_rewrite_two(ops, k + 1, st1, id, op);
                }
            },
        }
    }
}

/// The state fits all along the walk.
pub proof fn lemma_prune_fits(ops: Seq<SsaOp>, choices: Seq<Choice>, k: nat)
    requires
        well_formed(ops),
        0 < ops.len(),
        k <= ops.len(),
    ensures
        fits(ops, k as int, prune(ops, choices, k), None),
    decreases k,
{
    if k == 0 {
        lemma_start(ops);
    } else {
        lemma_prune_fits(ops, choices, (k - 1) as nat);
        lemma_step(ops, choices, k - 1, prune(ops, choices, (k - 1) as nat));
    }
}

/// Some operation of the result reads slot `s`.
pub open spec fn demanded(out: Seq<SsaOp>, s: u32) -> bool {
    exists|j: int| 0 <= j < out.len() && (#[trigger] out[j]).reads(s)
}

/// Nothing in the result is idle: every operation but the root is read by
/// one nearer the root, and so is every slot that a pending source slot has
/// and the slot in hand, once the root is written. Slots from `base` up
/// were handed out for the operation being worked on, which will read them.
pub open spec fn live(ops: Seq<SsaOp>, k: int, st: Pruning, hole: Option<u32>, base: nat) -> bool {
    &&& base <= st.count
    &&& st.out.len() == 0 ==> base == 1
    &&& forall|j: int| 0 < j < st.out.len() ==> #[trigger] wanted(st.out, j)
    &&& forall|i: int|
        #[trigger] pending(ops, st.bind, k, i) && st.bind[i] < base && st.out.len() > 0 ==> demanded(
            st.out,
            st.bind[i],
        )
    &&& hole matches Some(h) ==> (st.out.len() > 0 ==> demanded(st.out, h))
}

/// Passing an operation whose result has no slot in the result leaves
/// nothing idle.
proof fn lemma_live_dead(ops: Seq<SsaOp>, k: int, st: Pruning, st1: Pruning)
    requires
        fits(ops, k, st, None),
        live(ops, k, st, None, st.count),
        k < ops.len(),
        st1 == (Pruning { used: st1.used, ..st }),
    ensures
        live(ops, k + 1, st1, None, st1.count),
{
    assert forall|i: int|
        #[trigger] pending(ops, st1.bind, k + 1, i) && st1.bind[i] < st1.count && st1.out.len()
            > 0 implies demanded(st1.out, st1.bind[i]) by {
        assert(pending(ops, st.bind, k, i));
    }
}

/// Taking up an operation leaves nothing idle.
proof fn lemma_live_retire(ops: Seq<SsaOp>, k: int, st: Pruning, st1: Pruning)
    requires
        fits(ops, k, st, None),
        live(ops, k, st, None, st.count),
        k < ops.len(),
        st.bind[ops[k].out() as int] != SENTINEL,
        ops[k].out() < ops.len(),
        unwritten(ops, ops[k].out() as int, k),
        st1 == (Pruning { used: st1.used, ..st }),
    ensures
        live(ops, k + 1, st1, Some(st.bind[ops[k].out() as int]), st1.count),
        forall|i: int| #[trigger] pending(ops, st1.bind, k + 1, i) ==> st1.bind[i] < st1.count,
{
    let i0 = ops[k].out() as int;
    assert(pending(ops, st.bind, k, i0));
    assert forall|i: int|
        #[trigger] pending(ops, st1.bind, k + 1, i) && st1.bind[i] < st1.count && st1.out.len()
            > 0 implies demanded(st1.out, st1.bind[i]) by {
        assert(pending(ops, st.bind, k, i));
    }
}

/// Giving an operand a slot leaves nothing idle but, perhaps, that slot.
proof fn lemma_live_activate(ops: Seq<SsaOp>, k: int, st: Pruning, h: u32, base: nat, a: u32)
    requires
        fits(ops, k, st, Some(h)),
        live(ops, k, st, Some(h), base),
        a < ops.len(),
        st.count < SENTINEL,
    ensures
        live(ops, k, activate(st, a).0, Some(h), base),
        forall|x: int|
            #[trigger] pending(ops, activate(st, a).0.bind, k, x) && activate(st, a).0.bind[x]
                >= base ==> x == a || (pending(ops, st.bind, k, x) && st.bind[x] >= base),
{
    let st1 = activate(st, a).0;
    assert forall|i: int|
        #[trigger] pending(ops, st1.bind, k, i) && st1.bind[i] < base && st1.out.len()
            > 0 implies demanded(st1.out, st1.bind[i]) by {
        if i != a || st.bind[a as int] != SENTINEL {
            assert(pending(ops, st.bind, k, i));
        }
    }
    assert forall|x: int|
        #[trigger] pending(ops, st1.bind, k, x) && st1.bind[x] >= base implies x == a || (pending(
            ops,
            st.bind,
            k,
            x,
        ) && st.bind[x] >= base) by {
        if x != a {
            assert(pending(ops, st.bind, k, x));
        }
    }
}

/// Writing the slot in hand leaves nothing idle, if the operation reads
/// the slots that were handed out for it.
proof fn lemma_live_emit(ops: Seq<SsaOp>, k: int, st: Pruning, h: u32, base: nat, op: SsaOp)
    requires
        fits(ops, k, st, Some(h)),
        live(ops, k, st, Some(h), base),
        op.out() == h,
        forall|i: int|
            #[trigger] pending(ops, st.bind, k, i) && st.bind[i] >= base ==> op.reads(st.bind[i]),
    ensures
        live(ops, k, emit(st, op), None, emit(st, op).count),
{
    let st1 = emit(st, op);
    let out = st.out;
    let out1 = st1.out;
    let m = out.len() as int;
    assert(out1[m] == op);
    assert forall|j: int| 0 < j < out1.len() implies #[trigger] wanted(out1, j) by {
        if j < m {
            assert(wanted(out, j));
            let p = choose|p: int| 0 <= p < j && (#[trigger] out[p]).reads(out[j].out());
            assert(out1[p] == out[p] && out1[j] == out[j]);
        } else {
            assert(demanded(out, h));
            let p = choose|p: int| 0 <= p < out.len() && (#[trigger] out[p]).reads(h);
            assert(out1[p] == out[p]);
        }
    }
    assert forall|i: int|
        #[trigger] pending(ops, st1.bind, k, i) && st1.bind[i] < st1.count && st1.out.len()
            > 0 implies demanded(st1.out, st1.bind[i]) by {
        if st.bind[i] >= base {
            assert(out1[m].reads(st.bind[i]));
        } else if m > 0 {
            assert(demanded(out, st.bind[i]));
            let p = choose|p: int| 0 <= p < out.len() && (#[trigger] out[p]).reads(st.bind[i]);
            assert(out1[p] == out[p]);
        } else {
            assert(st.bind[i] != h);
        }
    }
}

/// Letting a source slot stand for the slot in hand leaves nothing idle.
proof fn lemma_live_alias(ops: Seq<SsaOp>, k: int, st: Pruning, h: u32, src: u32)
    requires
        fits(ops, k, st, Some(h)),
        live(ops, k, st, Some(h), st.count),
        src < ops.len(),
    ensures
        live(ops, k, alias_to(st, src, h), None, st.count),
{
    let st1 = alias_to(st, src, h);
    assert forall|i: int|
        #[trigger] pending(ops, st1.bind, k, i) && st1.bind[i] < st1.count && st1.out.len()
            > 0 implies demanded(st1.out, st1.bind[i]) by {
        if i != src {
            assert(pending(ops, st.bind, k, i));
        }
    }
}

/// Forwarding a source slot leaves nothing idle.
proof fn lemma_live_forward(ops: Seq<SsaOp>, k: int, st: Pruning, h: u32, src: u32)
    requires
        fits(ops, k, st, Some(h)),
        live(ops, k, st, Some(h), st.count),
        src < ops.len(),
        forall|i: int| #[trigger] pending(ops, st.bind, k, i) ==> st.bind[i] < st.count,
    ensures
        live(ops, k, forward(st, h, src), None, forward(st, h, src).count),
{
    if st.bind[src as int] != SENTINEL {
        lemma_live_emit(ops, k, st, h, st.count, SsaOp::CopyReg(h, st.bind[src as int]));
    } else {
        lemma_live_alias(ops, k, st, h, src);
    }
}

/// Keeping an operation of one operand leaves nothing idle.
proof fn lemma_live_one(ops: Seq<SsaOp>, k: int, st: Pruning, h: u32, op: SsaOp)
    requires
        well_formed(ops),
        fits(ops, k, st, Some(h)),
        live(ops, k, st, Some(h), st.count),
        op.shape().arity() == 1,
        op.lhs() < ops.len(),
        unwritten(ops, op.lhs() as int, k),
        forall|i: int| #[trigger] pending(ops, st.bind, k, i) ==> st.bind[i] < st.count,
    ensures
        live(ops, k, rewrite_one(st, op, h), None, rewrite_one(st, op, h).count),
{
    let (s1, a) = activate(st, op.lhs());
    lemma_activate(ops, k, st, h, op.lhs());
    lemma_live_activate(ops, k, st, h, st.count, op.lhs());
    lemma_with_slots(op, h, a, 0);
    lemma_live_emit(ops, k, s1, h, st.count, op.with_slots(h, a, 0));
}

/// Keeping an operation of two operands leaves nothing idle.
proof fn lemma_live_two(ops: Seq<SsaOp>, k: int, st: Pruning, h: u32, op: SsaOp)
    requires
        well_formed(ops),
        fits(ops, k, st, Some(h)),
        live(ops, k, st, Some(h), st.count),
        op.shape().arity() == 2,
        op.lhs() < ops.len(),
        op.rhs() < ops.len(),
        unwritten(ops, op.lhs() as int, k),
        unwritten(ops, op.rhs() as int, k),
        forall|i: int| #[trigger] pending(ops, st.bind, k, i) ==> st.bind[i] < st.count,
    ensures
        live(ops, k, rewrite_two(st, op, h), None, rewrite_two(st, op, h).count),
{
    let (s1, a) = activate(st, op.lhs());
    lemma_activate(ops, k, st, h, op.lhs());
    lemma_live_activate(ops, k, st, h, st.count, op.lhs());
    let (s2, b) = activate(s1, op.rhs());
    lemma_activate(ops, k, s1, h, op.rhs());
    lemma_live_activate(ops, k, s1, h, st.count, op.rhs());
    lemma_with_slots(op, h, a, b);
    assert forall|i: int|
        #[trigger] pending(ops, s2.bind, k, i) && s2.bind[i] >= st.count implies op.with_slots(
        h,
        a,
        b,
    ).reads(s2.bind[i]) by {
        if i != op.rhs() {
            assert(pending(ops, s1.bind, k, i) && s1.bind[i] >= st.count);
            if i != op.lhs() {
                assert(pending(ops, st.bind, k, i));
            }
        }
    }
    lemma_live_emit(ops, k, s2, h, st.count, op.with_slots(h, a, b));
}

/// One step of the walk leaves nothing idle.
proof fn lemma_live_step(ops: Seq<SsaOp>, choices: Seq<Choice>, k: int, st: Pruning)
    requires
        well_formed(ops),
        fits(ops, k, st, None),
        live(ops, k, st, None, st.count),
        k < ops.len(),
    ensures
        live(ops, k + 1, step(st, ops[k], choices), None, step(st, ops[k], choices).count),
{
    let op = ops[k];
    let id = st.bind[op.out() as int];
    lemma_used_next(ops, k);
    let st1 = Pruning { used: count_choices(ops.take(k + 1)), ..st };
    if id == SENTINEL {
        lemma_live_dead(ops, k, st, st1);
    } else {
        lemma_retire(ops, k, st, st1);
        lemma_live_retire(ops, k, st, st1);
        if op.shape().arity() >= 1 {
            lemma_operand_unwritten(ops, k, op.lhs());
        }
        if op.shape().arity() == 2 {
            lemma_operand_unwritten(ops, k, op.rhs());
        }
        match op.shape() {
            Shape::Input(_) | Shape::Var(_) | Shape::Imm(_) => {
                lemma_with_slots(op, id, 0, 0);
                lemma_live_emit(ops, k + 1, st1, id, st1.count, op.with_slots(id, 0, 0));
            },
            Shape::Copy => {
                lemma_live_forward(ops, k + 1, st1, id, op.lhs());
            },
            Shape::Unary(_) | Shape::ImmReg(_, _) => {
                lemma_live_one(ops, k + 1, st1, id, op);
            },
            Shape::RegImm(kind, imm) => {
                if kind.selects() {
                    match next_choice(st, choices) {
                        Choice::Left => {
                            lemma_live_forward(ops, k + 1, st1, id, op.lhs());
                        },
                        Choice::Right => {
                            lemma_live_emit(ops, k + 1, st1, id, st1.count, SsaOp::CopyImm(id, imm));
                        },
                        _ => {
                            lemma_live_one(ops, k + 1, st1, id, op);
                        },
                    }
                } else {
                    lemma_live_one(ops, k + 1, st1, id, op);
                }
            },
            Shape::Binary(kind) => {
                if kind.selects() {
                    match next_choice(st, choices) {
                        Choice::Left => {
                            lemma_live_forward(ops, k + 1, st1, id, op.lhs());
                        },
                        Choice::Right => {
                            lemma_live_forward(ops, k + 1, st1, id, op.rhs());
                        },
                        _ => {
                            lemma_live_two(ops, k + 1, st1, id, op);
                        },
                    }
                } else {
                    lemma_live_two(ops, k + 1, st1, id, op);
                }
            },
        }
    }
}

/// The walk leaves nothing idle.
proof fn lemma_prune_live(ops: Seq<SsaOp>, choices: Seq<Choice>, k: nat)
    requires
        well_formed(ops),
        0 < ops.len(),
        k <= ops.len(),
    ensures
        live(ops, k as int, prune(ops, choices, k), None, prune(ops, choices, k).count),
    decreases k,
{
    if k > 0 {
        lemma_prune_live(ops, choices, (k - 1) as nat);
        lemma_prune_fits(ops, choices, (k - 1) as nat);
        lemma_live_step(ops, choices, k - 1, prune(ops, choices, (k - 1) as nat));
    }
}

/// Where a step of the walk adds an operation to the result, that
/// operation writes a slot that the result awaits, and reads none that the
/// result has written.
pub proof fn lemma_emitting(ops: Seq<SsaOp>, choices: Seq<Choice>, k: nat)
    requires
        well_formed(ops),
        0 < ops.len(),
        k < ops.len(),
        prune(ops, choices, k + 1).out.len() > prune(ops, choices, k).out.len(),
    ensures
        ({
            let pre = prune(ops, choices, k).out;
            let next = prune(ops, choices, k + 1).out;
            let op = next[pre.len() as int];
            &&& next == pre.push(op)
            &&& awaited(pre, op.out())
            &&& !op.reads(op.out())
            &&& forall|j: int| 0 <= j < pre.len() ==> !op.reads((#[trigger] pre[j]).out())
        }),
{
    let st = prune(ops, choices, k);
    let st1 = prune(ops, choices, k + 1);
    let pre = st.out;
    let next = st1.out;
    let m = pre.len() as int;
    let new_op = next[m];
    lemma_prune_fits(ops, choices, k);
    lemma_prune_fits(ops, choices, k + 1);
    lemma_prune_live(ops, choices, k);
    let op = ops[k as int];
    let i = op.out() as int;
    let id = st.bind[i];
    assert(st1 == step(st, op, choices));
    assert(id != SENTINEL);
    assert(unwritten(ops, i, k as int));
    assert(pending(ops, st.bind, k as int, i));
    assert(next =~= pre.push(new_op));
    assert(new_op.out() == id) by {
        let a = activate(st, op.lhs()).1;
        let b = activate(activate(st, op.lhs()).0, op.rhs()).1;
        lemma_with_slots(op, id, 0, 0);
        lemma_with_slots(op, id, a, 0);
        lemma_with_slots(op, id, a, b);
    }
    assert forall|j: int| 0 <= j < pre.len() implies (#[trigger] pre[j]).out() != id by {}
    if m > 0 {
        assert(demanded(pre, id));
    }
    assert(!next[m].reads(next[m].out()));
    assert forall|j: int| 0 <= j < pre.len() implies !new_op.reads((#[trigger] pre[j]).out()) by {
        assert(next[j] == pre[j]);
        assert(!next[m].reads(next[j].out()));
    }
}

/// A step of the walk adds no variable to those that the result reads.
proof fn lemma_step_vars(st: Pruning, op: SsaOp, choices: Seq<Choice>, count: nat)
    requires
        vars_below(st.out, count),
        op.shape() matches Shape::Var(v) ==> v < count,
    ensures
        vars_below(step(st, op, choices).out, count),
{
    let st1 = step(st, op, choices);
    let id = st.bind[op.out() as int];
    let a = activate(st, op.lhs()).1;
    let b = activate(activate(st, op.lhs()).0, op.rhs()).1;
    lemma_with_slots(op, id, 0, 0);
    lemma_with_slots(op, id, a, 0);
    lemma_with_slots(op, id, a, b);
    assert forall|k: int| 0 <= k < st1.out.len() implies ((#[trigger] st1.out[k]).shape() matches Shape::Var(
        v,
    ) ==> v < count) by {
        if k < st.out.len() {
            assert(st1.out[k] == st.out[k]);
        }
    }
}

/// The simplified tape reads no variable that the source does not read.
pub proof fn lemma_simplified_vars(ops: Seq<SsaOp>, choices: Seq<Choice>, count: nat, k: nat)
    requires
        vars_below(ops, count),
        k <= ops.len(),
    ensures
        vars_below(prune(ops, choices, k).out, count),
    decreases k,
{
    if k > 0 {
        lemma_simplified_vars(ops, choices, count, (k - 1) as nat);
        lemma_step_vars(prune(ops, choices, (k - 1) as nat), ops[k - 1], choices, count);
    }
}

/// Simplification yields a single-assignment tape: its slots are dense,
/// each is written once, slot 0 is the root, and operands are written
/// further down. It is no longer than the source, and every `min` and
/// `max` in it was kept for a choice.
pub proof fn lemma_simplified_well_formed(ops: Seq<SsaOp>, choices: Seq<Choice>)
    requires
        well_formed(ops),
        0 < ops.len(),
    ensures
        well_formed(simplified(ops, choices)),
        simplified(ops, choices).len() <= ops.len(),
        simplified(ops, choices).len() == prune(ops, choices, ops.len()).count,
        count_choices(simplified(ops, choices)) == prune(ops, choices, ops.len()).kept,
        prune(ops, choices, ops.len()).used == count_choices(ops),
{
    let n = ops.len();
    let st = prune(ops, choices, n);
    lemma_prune_fits(ops, choices, n);
    lemma_prune_live(ops, choices, n);
    assert(ops.take(n as int) == ops);
    assert forall|i: int| !pending(ops, st.bind, n as int, i) by {
        if 0 <= i < n {
            assert(written(ops, i));
        }
    }
    assert(pending_set(ops, st.bind, n as int) =~= Set::<int>::empty());
    assert forall|s: int| 0 <= s < st.out.len() implies #[trigger] written(st.out, s) by {
        assert(covered(ops, st, n as int, None, s));
    }
}

} // verus!
