//! General-purpose tapes for use during evaluation or further compilation
use vstd::prelude::*;
use vstd::set_lib::{lemma_int_range, lemma_len_subset, set_int_range};
use crate::builder::{flat_names, flattened};
use crate::choice::Choice;
use crate::equivalence::{honors, lemma_simplified_same_value};
use crate::error::Error;
use crate::op::{eval, Algebra, Shape, Term};
use crate::reg_op::{
    exec_regs, initial_terms, initial_values, lemma_exec_is_eval, lemma_skeleton_len, run_regs,
    skeleton, RegOp,
};
use crate::context::{Context, Node};
use crate::regalloc::{
    allocate, allocated, allocating, fresh_tables, implements, meets, RegisterAllocator, MAX_OPS,
};
use crate::simplify::{
    activate, lemma_emitting, lemma_prune_fits, lemma_prune_grows, lemma_simplified_vars,
    lemma_simplified_well_formed, lemma_used_bound, lemma_used_next,
    next_choice, prune, simplified, step, Pruning, SENTINEL,
};
use crate::ssa::{
    awaited, count_choices, denote, lemma_awaited_push, lemma_count_bound, lemma_denote_any,
    live, roomy, vars_below, well_formed, SsaTape,
};
use crate::ssa_op::{lemma_with_slots, run_slots, shapes, SsaOp};
use crate::tape::Tape;

verus! {

/// Whatever the registers and spill slots hold at the start, the register
/// tape `code` leaves in register 0 the expression that the slot tape `ssa`
/// computes.
pub open spec fn computes(code: Seq<RegOp>, ssa: Seq<SsaOp>) -> bool {
    forall|s: Map<int, Term>| (#[trigger] run_regs(code, s))[0] == denote(ssa)
}

/// A register tape that implements a well-formed slot tape computes what
/// that tape computes.
pub proof fn lemma_implements_computes(code: Seq<RegOp>, ssa: Seq<SsaOp>)
    requires
        well_formed(ssa),
        ssa.len() > 0,
        implements(code, ssa),
    ensures
        computes(code, ssa),
{
    assert forall|s: Map<int, Term>| (#[trigger] run_regs(code, s))[0] == denote(ssa) by {
        assert(meets(code, ssa, s));
        let e = choose|e: Map<u32, Term>| run_regs(code, s)[0] == (#[trigger] run_slots(ssa, e))[0];
        lemma_denote_any(ssa, e);
    }
}

/// An evaluator that runs the register tape on values of any kind, from
/// whatever the registers and spill slots hold, ends with the value of the
/// slot tape's expression in register 0.
pub proof fn lemma_code_value<V>(code: Seq<RegOp>, ssa: Seq<SsaOp>, alg: Algebra<V>)
    requires
        computes(code, ssa),
    ensures
        exec_regs(code, alg, initial_values(alg))[0] == eval(denote(ssa), alg),
{
    lemma_exec_is_eval(code, alg, initial_terms(), initial_values(alg));
    assert(run_regs(code, initial_terms())[0] == denote(ssa));
}

/// Simplification keeps what an evaluator computes: under every reading of
/// the kinds for which each choice is right for its `min` or `max`, running
/// the register tape of the simplified data ends with the value that
/// running the register tape of the source ends with, whatever the
/// registers and spill slots held at the start.
pub proof fn lemma_simplify_keeps_value<V>(
    source_code: Seq<RegOp>,
    source: Seq<SsaOp>,
    code: Seq<RegOp>,
    choices: Seq<Choice>,
    alg: Algebra<V>,
)
    requires
        well_formed(source),
        source.len() > 0,
        computes(source_code, source),
        computes(code, simplified(source, choices)),
        honors(source, alg, choices),
    ensures
        exec_regs(code, alg, initial_values(alg))[0] == exec_regs(
            source_code,
            alg,
            initial_values(alg),
        )[0],
{
    lemma_code_value(source_code, source, alg);
    lemma_code_value(code, simplified(source, choices), alg);
    lemma_simplified_same_value(source, choices, alg);
}

/// Where the slots awaited after `k` steps of a simplification outnumber
/// `limit`, more than `limit` values are alive at that point of the
/// simplified tape.
proof fn lemma_crowded_tape(
    source: Seq<SsaOp>,
    choices: Seq<Choice>,
    k: nat,
    busy: Set<int>,
    pre: Seq<SsaOp>,
)
    requires
        well_formed(source),
        source.len() > 0,
        k <= source.len(),
        pre == prune(source, choices, k).out,
        forall|s: int| busy.contains(s) ==> 0 <= s <= u32::MAX && awaited(pre, s as u32),
    ensures
        busy.finite(),
        pre.len() <= simplified(source, choices).len(),
        live(simplified(source, choices), pre.len() as int).finite(),
        busy.len() <= live(simplified(source, choices), pre.len() as int).len(),
{
    let whole = simplified(source, choices);
    let j = pre.len() as int;
    lemma_prune_grows(source, choices, k, source.len());
    lemma_simplified_well_formed(source, choices);
    lemma_prune_fits(source, choices, source.len());
    assert(whole.take(j) == pre);
    assert(whole.len() > 0);
    assert forall|s: int| busy.contains(s) implies live(whole, j).contains(s) by {
        let u = s as u32;
        assert(awaited(pre, u));
        if u != 0 {
            let i = choose|i: int| 0 <= i < pre.len() && (#[trigger] pre[i]).reads(u);
            assert(whole.take(j)[i] == whole[i]);
            assert(whole[i].reads(u));
            assert(u < whole.len());
        }
        assert(awaited(whole.take(j), s as u32));
    }
    lemma_int_range(0, whole.len() as int);
    assert(live(whole, j).subset_of(set_int_range(0, whole.len() as int)));
    lemma_len_subset(live(whole, j), set_int_range(0, whole.len() as int));
    lemma_len_subset(busy, live(whole, j));
}

/// A register tape that names no spill slot holds nothing but computing
/// operations.
pub proof fn lemma_unspilled_len(code: Seq<RegOp>, limit: int, slots: int)
    requires
        slots <= 0,
        forall|i: int| 0 <= i < code.len() ==> (#[trigger] code[i]).within(limit, slots),
    ensures
        skeleton(code).len() == code.len(),
    decreases code.len(),
{
    if code.len() > 0 {
        assert(code.last() == code[code.len() - 1]);
        assert forall|i: int| 0 <= i < code.drop_last().len() implies (
        #[trigger] code.drop_last()[i]).within(limit, slots) by {
            assert(code.drop_last()[i] == code[i]);
        }
        lemma_unspilled_len(code.drop_last(), limit, slots);
    }
}

/// Simplification never makes the register tape longer where the
/// simplified tape needs no spill slot. (Where it needs spill slots, the
/// loads and stores of the simplified tape can outnumber those of the
/// source.)
pub proof fn lemma_unspilled_never_longer(
    source_code: Seq<RegOp>,
    source: Seq<SsaOp>,
    code: Seq<RegOp>,
    choices: Seq<Choice>,
    limit: int,
    slots: int,
)
    requires
        well_formed(source),
        source.len() > 0,
        skeleton(source_code) == shapes(source),
        skeleton(code) == shapes(simplified(source, choices)),
        slots <= 0,
        forall|i: int| 0 <= i < code.len() ==> (#[trigger] code[i]).within(limit, slots),
    ensures
        code.len() <= source_code.len(),
{
    lemma_unspilled_len(code, limit, slots);
    lemma_skeleton_len(source_code);
    lemma_simplified_well_formed(source, choices);
}

/// A flattened math expression, ready for evaluation or further compilation.
///
/// Under the hood, [`VmData`] stores two different representations:
/// - A tape in single static assignment form ([`SsaTape`]), which is
///   suitable for use during tape simplification
/// - A tape in register-allocated form ([`Tape`]), which can be efficiently
///   evaluated or lowered into machine assembly
///
/// # Example
/// Consider the expression `x + y`.  The SSA tape will look something like
/// this:
/// ```text
/// $2 = INPUT 0   // X
/// $1 = INPUT 1   // Y
/// $0 = ADD $2 $1 // (X + Y)
/// ```
///
/// This will be lowered into a tape using real (or VM) registers:
/// ```text
/// r0 = INPUT 0 // X
/// r1 = INPUT 1 // Y
/// r0 = ADD r0 r1 // (X + Y)
/// ```
///
/// Note that in this form, registers are reused (e.g. `r0` stores both `X` and
/// `X + Y`).
pub struct VmData<const N: usize> {
    ssa: SsaTape,
    code: Tape,
}

impl<const N: usize> Default for VmData<N> {
    /// A pair of empty tapes.
    fn default() -> (r: Self)
        ensures
            r.wf(),
            r.ssa() == Seq::<SsaOp>::empty(),
            r.code() == Seq::<RegOp>::empty(),
    {
        proof {
            assert(shapes(Seq::<SsaOp>::empty()) =~= skeleton(Seq::<RegOp>::empty()));
        }
        VmData { ssa: SsaTape::default(), code: Tape::default() }
    }
}

impl<const N: usize> VmData<N> {
    /// The operations of the slot tape, root first.
    pub closed spec fn ssa(&self) -> Seq<SsaOp> {
        self.ssa@
    }

    /// The operations of the register tape, the last to run first.
    pub closed spec fn code(&self) -> Seq<RegOp> {
        self.code@
    }

    /// The recorded number of `min` and `max` operations.
    pub closed spec fn choices(&self) -> nat {
        self.ssa.choices()
    }

    /// The names of the variables, each at its index.
    pub closed spec fn names(&self) -> Seq<Seq<char>> {
        self.ssa.names()
    }

    /// The number of spill slots of the register tape.
    pub closed spec fn slots(&self) -> nat {
        self.code.slots() as nat
    }

    /// The two tapes belong together: the slot tape is well formed with a
    /// right count of choices; the register tape is the one that `allocate`
    /// gives for it, stays within `N` registers and its own slots, and
    /// computes what the slot tape computes.
    pub open spec fn wf(&self) -> bool {
        &&& well_formed(self.ssa())
        &&& self.choices() == count_choices(self.ssa())
        &&& self.ssa().len() > 0 ==> self.code() == allocated(self.ssa(), N as int) && self.slots()
            == allocating(self.ssa(), N as int).slots
        &&& forall|i: int|
            0 <= i < self.code().len() ==> (#[trigger] self.code()[i]).within(
                N as int,
                self.slots() as int,
            )
        &&& self.ssa().len() > 0 ==> 2 <= N <= 255 && computes(self.code(), self.ssa())
        &&& self.ssa().len() == 0 ==> self.code().len() == 0
        &&& skeleton(self.code()) == shapes(self.ssa())
        &&& vars_below(self.ssa(), self.names().len())
    }

    /// Builds a new tape for the given node
    ///
    /// The slot tape is the one that `SsaTape::new` builds for the node,
    /// and the register tape the one that `allocate` gives for it: it
    /// computes the same with `N` registers. A node that is not part of
    /// the context is refused, and so is one so far down the context that
    /// the tape might need more slots than can be numbered.
    pub fn new(context: &Context, node: Node) -> (r: Result<Self, Error>)
        requires
            context.wf(),
            2 <= N <= 255,
        ensures
            match r {
                Ok(d) => {
                    &&& node.0 < context.ops().len()
                    &&& node.0 < MAX_OPS
                    &&& d.wf()
                    &&& d.ssa().len() > 0
                    &&& d.ssa() == flattened(context.ops(), context.names(), node.0 as int)
                    &&& d.names() == flat_names(context.ops(), context.names(), node.0 as int)
                    &&& d.code() == allocated(d.ssa(), N as int)
                    &&& d.slots() == allocating(d.ssa(), N as int).slots
                    &&& d.ssa().len() < N ==> d.slots() == 0
                    &&& roomy(d.ssa(), N as int) ==> d.slots() == 0
                    &&& d.slots() == 0 ==> d.code().len() == d.ssa().len()
                    &&& denote(d.ssa()) == context.term(node, d.names())
                    &&& forall|i: int, j: int|
                        0 <= i < j < d.names().len() ==> d.names()[i] != d.names()[j]
                    &&& forall|i: int|
                        0 <= i < d.names().len() ==> context.names().contains(
                            #[trigger] d.names()[i],
                        )
                },
                Err(e) => if node.0 >= context.ops().len() {
                    e == Error::BadNode
                } else {
                    e == Error::TooManyNodes && node.0 >= MAX_OPS
                },
            },
    {
        let ssa = match SsaTape::new(context, node) {
            Ok(t) => t,
            Err(e) => {
                return Err(e);
            },
        };
        let code = allocate::<N>(&ssa);
        proof {
            lemma_implements_computes(code@, ssa@);
            if code.slots() == 0 {
                lemma_unspilled_len(code@, N as int, 0);
            }
        }
        Ok(VmData { ssa, code })
    }

    /// Returns this tape's variable names: the variable with index `i` is
    /// the one called `vars()[i]`.
    pub fn vars(&self) -> (r: &Vec<String>)
        ensures
            self.names() == Seq::new(r@.len(), |i: int| r@[i]@),
    {
        self.ssa.vars()
    }

    /// Returns the length of the internal VM tape
    pub fn len(&self) -> (r: usize)
        ensures
            r == self.code().len(),
    {
        self.code.len()
    }

    /// Returns true if the internal VM tape is empty
    pub fn is_empty(&self) -> (r: bool)
        ensures
            r == (self.code().len() == 0),
    {
        self.code.is_empty()
    }

    /// Returns the number of choice (min/max) nodes in the tape.
    ///
    /// This is required because some evaluators pre-allocate spaces for the
    /// choice array.
    pub fn choice_count(&self) -> (r: usize)
        ensures
            r == self.choices(),
    {
        self.ssa.choice_count()
    }

    /// Returns the number of spill slots used by the inner VM tape
    pub fn slot_count(&self) -> (r: usize)
        ensures
            r == self.slots(),
    {
        self.code.slot_count()
    }

    /// Returns the number of variables used in this tape
    pub fn var_count(&self) -> (r: usize)
        ensures
            r == self.names().len(),
    {
        self.ssa.vars().len()
    }

    /// Returns the number of operations of the slot tape.
    pub fn ssa_len(&self) -> (r: usize)
        ensures
            r == self.ssa().len(),
    {
        self.ssa.len()
    }

    /// Returns the operation at position `i` of the slot tape, counted
    /// from the root.
    pub fn ssa_op(&self, i: usize) -> (r: SsaOp)
        requires
            i < self.ssa().len(),
        ensures
            r == self.ssa()[i as int],
    {
        self.ssa.get(i)
    }

    /// Simplifies both inner tapes, using the provided choice array
    ///
    /// To minimize allocations, this function takes a [`VmWorkspace`] and
    /// spare [`VmData`]; it will reuse those allocations.
    ///
    /// The choices are those recorded for the `min` and `max` operations of
    /// this tape, in the order of evaluation. The new slot tape is the one
    /// that `simplified` describes, and the new register tape the one that
    /// `allocate` gives for it. A vector of another length is refused, and
    /// so is
    /// simplifying a tape without operations; the workspace is then left
    /// as it was, and the spare tapes come back with the error.
    #[verifier::rlimit(30)]
    pub fn simplify(
        &self,
        choices: &[Choice],
        workspace: &mut VmWorkspace<N>,
        tape: VmData<N>,
    ) -> (r: Result<Self, (Error, VmData<N>)>)
        requires
            self.wf(),
            forall|i: int| 0 <= i < choices@.len() ==> (#[trigger] choices@[i]).is_known(),
        ensures
            match r {
                Ok(d) => {
                    &&& choices@.len() == self.choices()
                    &&& self.ssa().len() > 0
                    &&& d.ssa() == simplified(self.ssa(), choices@)
                    &&& d.choices() == prune(self.ssa(), choices@, self.ssa().len()).kept
                    &&& d.names() == self.names()
                    &&& d.wf()
                    &&& 0 < d.ssa().len() <= self.ssa().len()
                    &&& d.code() == allocated(d.ssa(), N as int)
                    &&& d.slots() == allocating(d.ssa(), N as int).slots
                    &&& d.ssa().len() < N ==> d.slots() == 0
                    &&& roomy(d.ssa(), N as int) ==> d.slots() == 0
                    &&& d.slots() == 0 ==> d.code().len() == d.ssa().len() && d.code().len()
                        <= self.code().len()
                    &&& final(workspace).bindings() == prune(
                        self.ssa(),
                        choices@,
                        self.ssa().len(),
                    ).bind
                    &&& final(workspace).counted() == d.ssa().len()
                },
                Err(refused) => {
                    &&& refused.1 == tape
                    &&& *final(workspace) == *old(workspace)
                    &&& if choices@.len() != self.choices() {
                        refused.0 == Error::BadChoiceSlice(
                            choices@.len() as usize,
                            self.choices() as usize,
                        )
                    } else {
                        refused.0 == Error::EmptyTape && self.ssa().len() == 0
                    }
                },
            },
    {
        if choices.len() != self.choice_count() {
            return Err((Error::BadChoiceSlice(choices.len(), self.choice_count()), tape));
        }
        let n: usize = self.ssa.len();
        if n == 0 {
            return Err((Error::EmptyTape, tape));
        }
        let (mut ops_out, _, _) = tape.ssa.into_parts();
        ops_out.clear();

        // Steal `tape.code` and hand it to the workspace for use in allocator
        workspace.reset(n, tape.code);

        let mut choice_count: usize = 0;

        // The tape is constructed so that the output slot is first
        workspace.set_active(self.ssa.get(0).output(), 0);
        workspace.count = workspace.count + 1;

        // Choices are consumed from the far end
        let mut used: usize = 0;

        let ghost src = self.ssa@;
        let ghost picks = choices@;
        proof {
            assert(workspace.bind@ =~= prune(src, picks, 0).bind);
        }

        let mut k: usize = 0;
        while k < n
            invariant
                0 <= k <= n,
                n == src.len(),
                n > 0,
                2 <= N <= 255,
                src == self.ssa@,
                picks == choices@,
                well_formed(src),
                picks.len() == count_choices(src),
                picks.len() <= usize::MAX,
                workspace.bind@ == prune(src, picks, k as nat).bind,
                workspace.count == prune(src, picks, k as nat).count,
                ops_out@ == prune(src, picks, k as nat).out,
                choice_count == prune(src, picks, k as nat).kept,
                used == prune(src, picks, k as nat).used,
                workspace.alloc.inv(),
                workspace.alloc.size() == n,
                workspace.alloc.taken() == ops_out@,
                workspace.alloc.kept() == ops_out@,
                workspace.alloc.tables() == allocating(ops_out@, N as int),
                workspace.alloc.slots() == 0 ==> workspace.alloc.handed() <= ops_out@.len() + 1,
                ops_out@.len() < N ==> workspace.alloc.slots() == 0,
                roomy(simplified(src, picks), N as int) ==> workspace.alloc.slots() == 0,
                forall|s: u32|
                    s < n ==> #[trigger] workspace.alloc.assigned(s) == awaited(ops_out@, s),
            decreases n - k,
        {
            let ghost st = prune(src, picks, k as nat);
            proof {
                lemma_prune_fits(src, picks, k as nat);
                lemma_prune_fits(src, picks, (k + 1) as nat);
                lemma_used_bound(src, k + 1);
                lemma_count_bound(st.out);
                lemma_used_next(src, k as int);
            }
            let op = self.ssa.get(k);
            let pick: Choice = if op.has_choice() {
                let c: Choice = choices[choices.len() - 1 - used];
                used = used + 1;
                c
            } else {
                Choice::Both
            };
            k = k + 1;
            let emitted: Option<SsaOp> = workspace.walk(op, pick, Ghost(st), Ghost(picks));
            if emitted.is_some() && op.has_choice() {
                match pick {
                    Choice::Left | Choice::Right => {},
                    _ => {
                        choice_count = choice_count + 1;
                    },
                }
            }
            if let Some(new_op) = emitted {
                let ghost before = workspace.alloc;
                proof {
                    let st1 = prune(src, picks, k as nat);
                    assert(st1.out == st.out.push(new_op));
                    assert(st1.out[st.out.len() as int] == new_op);
                    assert(ops_out@.push(new_op).drop_last() == ops_out@);
                    assert(ops_out@.push(new_op).last() == new_op);
                    lemma_emitting(src, picks, (k - 1) as nat);
                }
                workspace.alloc.op(new_op);
                proof {
                    assert forall|s: u32| s < n implies #[trigger] workspace.alloc.assigned(s)
                        == awaited(ops_out@.push(new_op), s) by {
                        lemma_awaited_push(ops_out@, new_op, s);
                        assert(before.assigned(s) == awaited(ops_out@, s));
                    }
                    if before.slots() == 0 && workspace.alloc.slots() > 0 {
                        lemma_crowded_tape(
                            src,
                            picks,
                            k as nat,
                            workspace.alloc.busy(),
                            ops_out@.push(new_op),
                        );
                    }
                }
                ops_out.push(new_op);
            }
        }

        proof {
            lemma_simplified_well_formed(src, picks);
            lemma_prune_fits(src, picks, n as nat);
            lemma_simplified_vars(src, picks, self.names().len(), n as nat);
        }
        let reg_tape = workspace.alloc.finalize();
        proof {
            lemma_implements_computes(reg_tape@, ops_out@);
            lemma_skeleton_len(self.code@);
            if reg_tape.slots() == 0 {
                lemma_unspilled_len(reg_tape@, N as int, 0);
            }
        }
        let vars = self.ssa.vars().clone();
        proof {
            assert(Seq::new(vars@.len(), |i: int| vars@[i]@) =~= self.ssa.names());
        }
        Ok(VmData { ssa: SsaTape::from_parts(ops_out, choice_count, vars), code: reg_tape })
    }

    /// Returns the operations of the register tape in evaluation order:
    /// the first to run first.
    pub fn iter_asm(&self) -> (r: Vec<RegOp>)
        ensures
            r@ == self.code().reverse(),
    {
        let n: usize = self.code.len();
        let mut r: Vec<RegOp> = Vec::with_capacity(n);
        let mut i: usize = n;
        while i > 0
            invariant
                n == self.code@.len(),
                i <= n,
                r@.len() == n - i,
                forall|j: int| 0 <= j < r@.len() ==> r@[j] == self.code@[n - 1 - j],
            decreases i,
        {
            i = i - 1;
            r.push(self.code.get(i));
        }
        proof {
            assert(r@ =~= self.code@.reverse());
        }
        r
    }
}

////////////////////////////////////////////////////////////////////////////////

/// Data structures used during [`VmData::simplify`]
///
/// This is exposed to minimize reallocations in hot loops.
pub struct VmWorkspace<const N: usize> {
    /// Register allocator
    pub(crate) alloc: RegisterAllocator<N>,
    /// Current bindings from SSA variables to registers
    pub(crate) bind: Vec<u32>,
    /// Number of active SSA bindings
    ///
    /// This value is monotonically increasing; each SSA variable gets the next
    /// value if it is unassigned when encountered.
    count: u32,
}

impl<const N: usize> Default for VmWorkspace<N> {
    /// A workspace without bindings.
    fn default() -> (r: Self)
        ensures
            r.bindings() == Seq::<u32>::empty(),
            r.counted() == 0,
    {
        VmWorkspace { alloc: RegisterAllocator::empty(), bind: Vec::new(), count: 0 }
    }
}

impl<const N: usize> VmWorkspace<N> {
    /// For each slot of the tape being simplified, its slot in the result
    /// or `SENTINEL`.
    pub closed spec fn bindings(&self) -> Seq<u32> {
        self.bind@
    }

    /// The number of slots of the result handed out.
    pub closed spec fn counted(&self) -> nat {
        self.count as nat
    }

    /// The allocator is ready for a tape of `n` slots and has taken nothing.
    pub closed spec fn fresh(&self, n: nat) -> bool {
        &&& self.alloc.inv()
        &&& self.alloc.size() == n
        &&& self.alloc.taken() == Seq::<SsaOp>::empty()
        &&& self.alloc.kept() == Seq::<SsaOp>::empty()
        &&& self.alloc.emitted() == Seq::<RegOp>::empty()
        &&& self.alloc.slots() == 0
        &&& self.alloc.handed() <= 1
        &&& n > 0 ==> self.alloc.tables() == fresh_tables(N as int)
        &&& forall|s: u32| self.alloc.assigned(s) == (s == 0 && n > 0)
    }

    fn active(&self, i: u32) -> (r: Option<u32>)
        requires
            i < self.bind@.len(),
        ensures
            r == if self.bind@[i as int] != SENTINEL {
                Some(self.bind@[i as int])
            } else {
                None
            },
    {
        if self.bind[i as usize] != u32::MAX {
            Some(self.bind[i as usize])
        } else {
            None
        }
    }

    fn get_or_insert_active(&mut self, i: u32) -> (r: u32)
        requires
            i < old(self).bind@.len(),
            old(self).count < u32::MAX,
        ensures
            final(self).alloc == old(self).alloc,
            if old(self).bind@[i as int] == SENTINEL {
                &&& final(self).bind@ == old(self).bind@.update(i as int, old(self).count)
                &&& final(self).count == old(self).count + 1
                &&& r == old(self).count
            } else {
                &&& final(self).bind@ == old(self).bind@
                &&& final(self).count == old(self).count
                &&& r == old(self).bind@[i as int]
            },
    {
        if self.bind[i as usize] == u32::MAX {
            self.bind[i as usize] = self.count;
            self.count = self.count + 1;
        }
        self.bind[i as usize]
    }

    fn set_active(&mut self, i: u32, bind: u32)
        requires
            i < old(self).bind@.len(),
        ensures
            final(self).bind@ == old(self).bind@.update(i as int, bind),
            final(self).count == old(self).count,
            final(self).alloc == old(self).alloc,
    {
        self.bind[i as usize] = bind;
    }

    /// Passes one operation of the tape being simplified, with `pick` as its
    /// choice if it is a `min` or `max`: updates the bindings and returns the
    /// operation to emit, if any.
    fn walk(
        &mut self,
        op: SsaOp,
        pick: Choice,
        Ghost(st): Ghost<Pruning>,
        Ghost(picks): Ghost<Seq<Choice>>,
    ) -> (r: Option<SsaOp>)
        requires
            old(self).bind@ == st.bind,
            old(self).count == st.count,
            op.out() < st.bind.len(),
            op.shape().arity() >= 1 ==> op.lhs() < st.bind.len(),
            op.shape().arity() == 2 ==> op.rhs() < st.bind.len(),
            st.count + 2 < u32::MAX,
            op.shape().has_choice() ==> pick == next_choice(st, picks),
        ensures
            final(self).alloc == old(self).alloc,
            final(self).bind@ == step(st, op, picks).bind,
            final(self).count == step(st, op, picks).count,
            match r {
                Some(new_op) => step(st, op, picks).out == st.out.push(new_op) && step(
                    st,
                    op,
                    picks,
                ).kept == st.kept + if new_op.shape().has_choice() {
                    1nat
                } else {
                    0nat
                } && (new_op.shape().has_choice() <==> op.shape().has_choice() && pick
                    != Choice::Left && pick != Choice::Right),
                None => step(st, op, picks).out == st.out && step(st, op, picks).kept == st.kept,
            },
    {
        let (shape, index, a, b) = op.decompose();
        let new_index: u32 = match self.active(index) {
            Some(i) => i,
            None => {
                return None;
            },
        };
        proof {
            lemma_with_slots(op, new_index, 0, 0);
        }
        match shape {
            Shape::Input(_) | Shape::Var(_) | Shape::Imm(_) => Some(op.renamed(new_index, 0, 0)),
            Shape::Copy => self.forward(new_index, a),
            Shape::Unary(_) | Shape::ImmReg(_, _) => self.keep_one(op, new_index),
            Shape::RegImm(kind, imm) => {
                if kind.is_select() {
                    match pick {
                        Choice::Left => self.forward(new_index, a),
                        Choice::Right => Some(SsaOp::CopyImm(new_index, imm)),
                        _ => self.keep_one(op, new_index),
                    }
                } else {
                    self.keep_one(op, new_index)
                }
            },
            Shape::Binary(kind) => {
                if kind.is_select() {
                    match pick {
                        Choice::Left => self.forward(new_index, a),
                        Choice::Right => self.forward(new_index, b),
                        _ => self.keep_two(op, new_index),
                    }
                } else {
                    self.keep_two(op, new_index)
                }
            },
        }
    }

    /// Gives the operand of `op` a slot in the result and returns `op` over
    /// the slots of the result, writing `id`.
    fn keep_one(&mut self, op: SsaOp, id: u32) -> (r: Option<SsaOp>)
        requires
            op.lhs() < old(self).bind@.len(),
            old(self).count < u32::MAX,
        ensures
            final(self).alloc == old(self).alloc,
            ({
                let st = Pruning {
                    bind: old(self).bind@,
                    count: old(self).count as nat,
                    used: 0,
                    kept: 0,
                    out: Seq::empty(),
                };
                let (s1, a) = activate(st, op.lhs());
                &&& final(self).bind@ == s1.bind
                &&& final(self).count == s1.count
                &&& r == Some(op.with_slots(id, a, 0))
                &&& op.with_slots(id, a, 0).shape() == op.shape()
            }),
    {
        let arg: u32 = self.get_or_insert_active(op.decompose().2);
        proof {
            lemma_with_slots(op, id, arg, 0);
        }
        Some(op.renamed(id, arg, 0))
    }

    /// Gives the operands of `op` slots in the result and returns `op` over
    /// the slots of the result, writing `id`.
    fn keep_two(&mut self, op: SsaOp, id: u32) -> (r: Option<SsaOp>)
        requires
            op.lhs() < old(self).bind@.len(),
            op.rhs() < old(self).bind@.len(),
            old(self).count + 1 < u32::MAX,
        ensures
            final(self).alloc == old(self).alloc,
            ({
                let st = Pruning {
                    bind: old(self).bind@,
                    count: old(self).count as nat,
                    used: 0,
                    kept: 0,
                    out: Seq::empty(),
                };
                let (s1, a) = activate(st, op.lhs());
                let (s2, b) = activate(s1, op.rhs());
                &&& final(self).bind@ == s2.bind
                &&& final(self).count == s2.count
                &&& r == Some(op.with_slots(id, a, b))
                &&& op.with_slots(id, a, b).shape() == op.shape()
            }),
    {
        let parts = op.decompose();
        let lhs: u32 = self.get_or_insert_active(parts.2);
        let rhs: u32 = self.get_or_insert_active(parts.3);
        proof {
            lemma_with_slots(op, id, lhs, rhs);
        }
        Some(op.renamed(id, lhs, rhs))
    }

    /// Makes the slot `id` of the result hold what the source slot `src`
    /// holds: returns the copy to emit if `src` has a slot already, and else
    /// gives `src` the slot `id` and returns nothing.
    fn forward(&mut self, id: u32, src: u32) -> (r: Option<SsaOp>)
        requires
            src < old(self).bind@.len(),
        ensures
            final(self).alloc == old(self).alloc,
            final(self).count == old(self).count,
            match r {
                Some(op) => old(self).bind@[src as int] != SENTINEL && op == SsaOp::CopyReg(
                    id,
                    old(self).bind@[src as int],
                ) && final(self).bind@ == old(self).bind@,
                None => old(self).bind@[src as int] == SENTINEL && final(self).bind@ == old(
                    self,
                ).bind@.update(src as int, id),
            },
    {
        match self.active(src) {
            Some(new_src) => Some(SsaOp::CopyReg(id, new_src)),
            None => {
                self.set_active(src, id);
                None
            },
        }
    }

    /// Resets the workspace, preserving allocations and claiming the given
    /// [`Tape`].
    pub fn reset(&mut self, tape_len: usize, tape: Tape)
        requires
            2 <= N <= 255,
            tape_len <= MAX_OPS,
        ensures
            final(self).bindings() == Seq::new(tape_len as nat, |i: int| SENTINEL),
            final(self).counted() == 0,
            final(self).fresh(tape_len as nat),
    {
        self.alloc.reset(tape_len, tape);
        self.bind.clear();
        self.bind.resize(tape_len, u32::MAX);
        self.count = 0;
        proof {
            assert(self.bind@ =~= Seq::new(tape_len as nat, |i: int| SENTINEL));
        }
    }
}

} // verus!
