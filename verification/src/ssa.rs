//! The single-assignment tape.
use vstd::prelude::*;
use crate::op::{names_all, Shape, Term};
use crate::regalloc::MAX_OPS;
use crate::ssa_op::{run_slots, SsaOp};

verus! {

/// The environment after the operations from position `k` on have run in
/// `env`: the operation at `k` runs last.
pub open spec fn env_at(ops: Seq<SsaOp>, env: Map<u32, Term>, k: int) -> Map<u32, Term>
    decreases ops.len() - k,
{
    if k >= ops.len() || k < 0 {
        env
    } else {
        ops[k].step(env_at(ops, env, k + 1))
    }
}

/// Running a tape whose last operation has run already.
proof fn lemma_env_at_last(ops: Seq<SsaOp>, env: Map<u32, Term>, k: int)
    requires
        ops.len() > 0,
        0 <= k < ops.len(),
    ensures
        env_at(ops, env, k) == env_at(ops.drop_last(), ops.last().step(env), k),
    decreases ops.len() - k,
{
    if k == ops.len() - 1 {
        assert(env_at(ops, env, k + 1) == env);
    } else {
        lemma_env_at_last(ops, env, k + 1);
    }
}

/// A run of the whole tape ends in the environment at position 0.
pub proof fn lemma_run_is_env(ops: Seq<SsaOp>, env: Map<u32, Term>)
    ensures
        run_slots(ops, env) == env_at(ops, env, 0),
    decreases ops.len(),
{
    if ops.len() > 0 {
        lemma_run_is_env(ops.drop_last(), ops.last().step(env));
        lemma_env_at_last(ops, env, 0);
    }
}

/// The number of `min` and `max` operations.
pub open spec fn count_choices(ops: Seq<SsaOp>) -> nat
    decreases ops.len(),
{
    if ops.len() == 0 {
        0
    } else {
        count_choices(ops.drop_last()) + if ops.last().shape().has_choice() {
            1nat
        } else {
            0nat
        }
    }
}

/// Appending an operation adds one to the count if it is a `min` or `max`.
pub proof fn lemma_count_push(ops: Seq<SsaOp>, op: SsaOp)
    ensures
        count_choices(ops.push(op)) == count_choices(ops) + if op.shape().has_choice() {
            1nat
        } else {
            0nat
        },
{
    assert(ops.push(op).drop_last() == ops);
}

/// There are no more `min` and `max` operations than operations.
pub proof fn lemma_count_bound(ops: Seq<SsaOp>)
    ensures
        count_choices(ops) <= ops.len(),
    decreases ops.len(),
{
    if ops.len() > 0 {
        lemma_count_bound(ops.drop_last());
    }
}

/// Some operation writes slot `s`.
pub open spec fn written(ops: Seq<SsaOp>, s: int) -> bool {
    exists|k: int| 0 <= k < ops.len() && (#[trigger] ops[k]).out() == s
}

/// Some operation nearer the root reads what the operation at position
/// `k` writes.
pub open spec fn wanted(ops: Seq<SsaOp>, k: int) -> bool {
    exists|j: int| 0 <= j < k && (#[trigger] ops[j]).reads(ops[k].out())
}

/// The shape of a single-assignment tape: the root comes first and writes
/// slot 0; the slots written are exactly `0..n` for `n` operations, each by
/// one operation; every operand is written by an operation further down
/// the tape; and every operation but the root is read by one nearer the
/// root.
pub open spec fn well_formed(ops: Seq<SsaOp>) -> bool {
    &&& ops.len() <= MAX_OPS
    &&& ops.len() > 0 ==> ops[0].out() == 0
    &&& forall|k: int| 0 <= k < ops.len() ==> (#[trigger] ops[k]).out() < ops.len()
    &&& forall|j: int, k: int|
        0 <= j < k < ops.len() ==> (#[trigger] ops[j]).out() != (#[trigger] ops[k]).out()
    &&& forall|s: int| 0 <= s < ops.len() ==> #[trigger] written(ops, s)
    &&& forall|k: int|
        0 <= k < ops.len() ==> ((#[trigger] ops[k]).shape().arity() >= 1 ==> ops[k].lhs()
            < ops.len()) && (ops[k].shape().arity() == 2 ==> ops[k].rhs() < ops.len())
    &&& forall|j: int, k: int|
        0 <= j <= k < ops.len() ==> !(#[trigger] ops[k]).reads((#[trigger] ops[j]).out())
    &&& forall|k: int| 0 < k < ops.len() ==> #[trigger] wanted(ops, k)
}

/// Slot `s` is read by an operation of `pre`, or is the root's, and no
/// operation of `pre` writes it: the operation that writes it is still to
/// come.
pub open spec fn awaited(pre: Seq<SsaOp>, s: u32) -> bool {
    &&& forall|j: int| 0 <= j < pre.len() ==> (#[trigger] pre[j]).out() != s
    &&& s == 0 || exists|j: int| 0 <= j < pre.len() && (#[trigger] pre[j]).reads(s)
}

/// The slots whose values are alive just before the operation at position
/// `k` has run: an operation nearer the root reads them, and the operations
/// that write them stand at `k` or further down.
pub open spec fn live(ops: Seq<SsaOp>, k: int) -> Set<int> {
    Set::new(|s: int| 0 <= s < ops.len() && awaited(ops.take(k), s as u32))
}

/// At no point of the tape are more than `n` values alive.
pub open spec fn roomy(ops: Seq<SsaOp>, n: int) -> bool {
    forall|k: int| 0 <= k <= ops.len() ==> (#[trigger] live(ops, k)).len() <= n
}

/// After one more operation, the slots awaited are those that it reads and
/// those that were awaited before, without the one that it writes.
pub proof fn lemma_awaited_push(pre: Seq<SsaOp>, op: SsaOp, s: u32)
    requires
        forall|j: int| 0 <= j < pre.len() ==> !op.reads((#[trigger] pre[j]).out()),
        !op.reads(op.out()),
        awaited(pre, op.out()),
    ensures
        awaited(pre.push(op), s) == (op.reads(s) || (awaited(pre, s) && s != op.out())),
{
    let next = pre.push(op);
    let m = pre.len() as int;
    assert(next[m] == op);
    if op.reads(s) || (awaited(pre, s) && s != op.out()) {
        if !op.reads(s) && s != 0 {
            let j = choose|j: int| 0 <= j < pre.len() && (#[trigger] pre[j]).reads(s);
            assert(next[j].reads(s));
        }
    } else {
        if awaited(next, s) {
            assert forall|j: int| 0 <= j < pre.len() implies (#[trigger] pre[j]).out() != s by {
                assert(next[j] == pre[j]);
            }
        }
    }
}

/// In a well-formed tape, what each operation writes is awaited when the
/// tape is read up to it, and it reads nothing written up to there.
pub proof fn lemma_awaited_next(ops: Seq<SsaOp>, k: int)
    requires
        well_formed(ops),
        0 <= k < ops.len(),
    ensures
        awaited(ops.take(k), ops[k].out()),
        forall|j: int| 0 <= j < k ==> !ops[k].reads((#[trigger] ops.take(k)[j]).out()),
        !ops[k].reads(ops[k].out()),
        ops.take(k + 1) == ops.take(k).push(ops[k]),
{
    let pre = ops.take(k);
    if k > 0 {
        assert(wanted(ops, k));
        let j = choose|j: int| 0 <= j < k && (#[trigger] ops[j]).reads(ops[k].out());
        assert(pre[j].reads(ops[k].out()));
    }
}

/// Every variable that the tape reads has an index below `count`.
pub open spec fn vars_below(ops: Seq<SsaOp>, count: nat) -> bool {
    forall|k: int|
        0 <= k < ops.len() ==> ((#[trigger] ops[k]).shape() matches Shape::Var(v) ==> v < count)
}

/// The expression that a tape computes: what it leaves in slot 0.
pub open spec fn denote(ops: Seq<SsaOp>) -> Term {
    run_slots(ops, Map::empty())[0]
}

/// In a well-formed tape, what the operations from position `k` on leave in
/// the slots that they write does not depend on the environment in which
/// they start.
pub proof fn lemma_env_any(ops: Seq<SsaOp>, e1: Map<u32, Term>, e2: Map<u32, Term>, k: int)
    requires
        well_formed(ops),
        0 <= k <= ops.len(),
    ensures
        forall|j: int|
            k <= j < ops.len() ==> env_at(ops, e1, k)[(#[trigger] ops[j]).out()] == env_at(
                ops,
                e2,
                k,
            )[ops[j].out()],
    decreases ops.len() - k,
{
    if k < ops.len() {
        lemma_env_any(ops, e1, e2, k + 1);
        let op = ops[k];
        if op.shape().arity() >= 1 {
            assert(written(ops, op.lhs() as int));
        }
        if op.shape().arity() == 2 {
            assert(written(ops, op.rhs() as int));
        }
    }
}

/// A well-formed tape leaves the same expression in slot 0 whatever the
/// environment in which it starts.
pub proof fn lemma_denote_any(ops: Seq<SsaOp>, env: Map<u32, Term>)
    requires
        well_formed(ops),
        ops.len() > 0,
    ensures
        run_slots(ops, env)[0] == denote(ops),
{
    lemma_run_is_env(ops, env);
    lemma_run_is_env(ops, Map::empty());
    lemma_env_any(ops, env, Map::empty(), 0);
}

/// The expression that a tape leaves in slot `s`.
pub open spec fn slot_term(ops: Seq<SsaOp>, s: u32) -> Term {
    run_slots(ops, Map::empty())[s]
}

/// Operations that do not write a slot leave it as it is.
pub proof fn lemma_env_stable(ops: Seq<SsaOp>, env: Map<u32, Term>, k: int, s: u32)
    requires
        0 <= k <= ops.len(),
        forall|j: int| 0 <= j < k ==> (#[trigger] ops[j]).out() != s,
    ensures
        env_at(ops, env, 0)[s] == env_at(ops, env, k)[s],
    decreases k,
{
    if k > 0 {
        lemma_env_stable(ops, env, k - 1, s);
    }
}

/// In a well-formed tape, the expression in a slot is the one that the
/// operation writing the slot computes from the expressions in its
/// operands.
pub proof fn lemma_slot_term(ops: Seq<SsaOp>, k: int)
    requires
        well_formed(ops),
        0 <= k < ops.len(),
    ensures
        slot_term(ops, ops[k].out()) == ops[k].shape().apply(
            slot_term(ops, ops[k].lhs()),
            slot_term(ops, ops[k].rhs()),
        ),
{
    let env = Map::<u32, Term>::empty();
    let op = ops[k];
    lemma_run_is_env(ops, env);
    lemma_env_stable(ops, env, k, op.out());
    if op.shape().arity() >= 1 {
        lemma_env_stable(ops, env, k + 1, op.lhs());
    }
    if op.shape().arity() == 2 {
        lemma_env_stable(ops, env, k + 1, op.rhs());
    }
}

/// In a well-formed tape that reads only variables below `count`, the
/// expressions in the slots hold only such variables.
pub proof fn lemma_env_names(ops: Seq<SsaOp>, count: nat, k: int)
    requires
        well_formed(ops),
        vars_below(ops, count),
        0 <= k <= ops.len(),
    ensures
        forall|j: int|
            k <= j < ops.len() ==> names_all(
                env_at(ops, Map::empty(), k)[(#[trigger] ops[j]).out()],
                count,
            ),
    decreases ops.len() - k,
{
    if k < ops.len() {
        lemma_env_names(ops, count, k + 1);
        let op = ops[k];
        let e = env_at(ops, Map::empty(), k + 1);
        if op.shape().arity() >= 1 {
            assert(written(ops, op.lhs() as int));
        }
        if op.shape().arity() == 2 {
            assert(written(ops, op.rhs() as int));
        }
        let t = op.shape().apply(e[op.lhs()], e[op.rhs()]);
        assert(names_all(t, count)) by {
            match op.shape() {
                Shape::RegImm(_, imm) => {
                    assert(names_all(Term::Imm(imm), count));
                },
                Shape::ImmReg(_, imm) => {
                    assert(names_all(Term::Imm(imm), count));
                },
                _ => {},
            }
        }
    }
}

/// The expression of a well-formed tape holds only variables that the
/// tape reads.
pub proof fn lemma_denote_names(ops: Seq<SsaOp>, count: nat)
    requires
        well_formed(ops),
        ops.len() > 0,
        vars_below(ops, count),
    ensures
        names_all(denote(ops), count),
{
    lemma_run_is_env(ops, Map::empty());
    lemma_env_names(ops, count, 0);
}

/// A tape in single-assignment form, stored with its root first, together
/// with the number of its `min` and `max` operations and the names of its
/// variables.
pub struct SsaTape {
    tape: Vec<SsaOp>,
    choice_count: usize,
    vars: Vec<String>,
}

impl View for SsaTape {
    type V = Seq<SsaOp>;

    /// The operations, root first.
    closed spec fn view(&self) -> Seq<SsaOp> {
        self.tape@
    }
}

impl Default for SsaTape {
    /// A tape without operations.
    fn default() -> (r: SsaTape)
        ensures
            r@ == Seq::<SsaOp>::empty(),
            r.choices() == 0,
            r.names() == Seq::<Seq<char>>::empty(),
            r.wf(),
    {
        SsaTape { tape: Vec::new(), choice_count: 0, vars: Vec::new() }
    }
}

impl SsaTape {
    /// The recorded number of `min` and `max` operations.
    pub closed spec fn choices(&self) -> nat {
        self.choice_count as nat
    }

    /// The names of the variables: the variable with index `i` is called
    /// `names()[i]`.
    pub closed spec fn names(&self) -> Seq<Seq<char>> {
        Seq::new(self.vars@.len(), |i: int| self.vars@[i]@)
    }

    /// The tape is well formed, its count of choices is right, and it has
    /// a name for every variable that it reads.
    pub open spec fn wf(&self) -> bool {
        &&& well_formed(self@)
        &&& self.choices() == count_choices(self@)
        &&& vars_below(self@, self.names().len())
    }

    /// Puts a tape together from its parts.
    pub(crate) fn from_parts(tape: Vec<SsaOp>, choice_count: usize, vars: Vec<String>) -> (r:
        SsaTape)
        ensures
            r@ == tape@,
            r.choices() == choice_count,
            r.names() == Seq::new(vars@.len(), |i: int| vars@[i]@),
    {
        SsaTape { tape, choice_count, vars }
    }

    /// Takes a tape apart.
    pub(crate) fn into_parts(self) -> (r: (Vec<SsaOp>, usize, Vec<String>))
        ensures
            r.0@ == self@,
            r.1 == self.choices(),
            self.names() == Seq::new(r.2@.len(), |i: int| r.2@[i]@),
    {
        (self.tape, self.choice_count, self.vars)
    }

    /// Removes all operations, keeping the storage and the names.
    pub fn reset(&mut self)
        ensures
            final(self)@ == Seq::<SsaOp>::empty(),
            final(self).choices() == 0,
            final(self).names() == old(self).names(),
    {
        self.tape.clear();
        self.choice_count = 0;
    }

    /// Returns the number of operations.
    pub fn len(&self) -> (r: usize)
        ensures
            r == self@.len(),
    {
        self.tape.len()
    }

    /// Tells whether the tape holds no operation.
    pub fn is_empty(&self) -> (r: bool)
        ensures
            r == (self@.len() == 0),
    {
        self.tape.len() == 0
    }

    /// Returns the operation at position `i`, counted from the root.
    pub fn get(&self, i: usize) -> (r: SsaOp)
        requires
            i < self@.len(),
        ensures
            r == self@[i as int],
    {
        self.tape[i]
    }

    /// Returns the recorded number of `min` and `max` operations.
    pub fn choice_count(&self) -> (r: usize)
        ensures
            r == self.choices(),
    {
        self.choice_count
    }

    /// Returns the names of the variables, each at its index.
    pub fn vars(&self) -> (r: &Vec<String>)
        ensures
            self.names() == Seq::new(r@.len(), |i: int| r@[i]@),
    {
        &self.vars
    }
}

} // verus!
