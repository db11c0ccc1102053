//! How much shorter simplification makes a tape.
use vstd::prelude::*;
use crate::choice::Choice;
use crate::regalloc::{allocated, allocating, MAX_OPS};
use crate::simplify::{lemma_prune_fits, prune, simplified, start, step, Pruning, SENTINEL};
use crate::ssa::well_formed;
use crate::ssa_op::{lemma_with_slots, SsaOp};

verus! {

/// Once a step has added nothing, the result stays behind the walk.
proof fn lemma_stays_behind(ops: Seq<SsaOp>, choices: Seq<Choice>, k: nat, m: nat)
    requires
        k < m <= ops.len(),
        prune(ops, choices, k + 1).out.len() <= k,
    ensures
        prune(ops, choices, m).out.len() < m,
    decreases m,
{
    if m > k + 1 {
        lemma_stays_behind(ops, choices, k, (m - 1) as nat);
    }
}

/// The simplified tape is strictly shorter than the source as soon as the
/// walk passes one operation without adding to the result: an operation
/// that nothing kept reads, or a copy or a chosen side that is forwarded to
/// a slot that had no slot of its own.
pub proof fn lemma_strictly_shorter(ops: Seq<SsaOp>, choices: Seq<Choice>, k: nat)
    requires
        well_formed(ops),
        k < ops.len(),
        prune(ops, choices, k + 1).out.len() == prune(ops, choices, k).out.len(),
    ensures
        simplified(ops, choices).len() < ops.len(),
{
    lemma_prune_fits(ops, choices, k);
    lemma_stays_behind(ops, choices, k, ops.len());
}

/// A chain of `n` copies that ends in the operation `leaf`: slot 0 is a
/// copy of slot 1, slot 1 of slot 2, and so on, and `leaf` writes slot `n`.
pub open spec fn copy_chain(n: nat, leaf: SsaOp) -> Seq<SsaOp> {
    Seq::new(
        n + 1,
        |i: int|
            if i < n {
                SsaOp::CopyReg(i as u32, (i + 1) as u32)
            } else {
                leaf.with_slots(n as u32, 0, 0)
            },
    )
}

/// The bindings while the walk is on a chain of copies: every slot that it
/// has come to stands for slot 0 of the result.
spec fn chain_bind(n: nat, k: nat) -> Seq<u32> {
    Seq::new(
        n + 1,
        |i: int|
            if i <= k {
                0u32
            } else {
                SENTINEL
            },
    )
}

/// On a chain of copies the walk emits nothing until it comes to the end.
proof fn lemma_chain_walk(n: nat, leaf: SsaOp, choices: Seq<Choice>, k: nat)
    requires
        leaf.shape().arity() == 0,
        n < MAX_OPS,
        k <= n,
    ensures
        prune(copy_chain(n, leaf), choices, k) == (Pruning {
            bind: chain_bind(n, k),
            count: 1,
            used: 0,
            kept: 0,
            out: Seq::empty(),
        }),
    decreases k,
{
    let ops = copy_chain(n, leaf);
    if k == 0 {
        assert(start(ops.len()).bind =~= chain_bind(n, 0));
    } else {
        lemma_chain_walk(n, leaf, choices, (k - 1) as nat);
        let st = prune(ops, choices, (k - 1) as nat);
        let op = ops[k - 1];
        assert(step(st, op, choices).bind =~= chain_bind(n, k));
    }
}

/// A chain of copies collapses: whatever its length, the simplified tape is
/// the one operation at its end, writing slot 0.
pub proof fn lemma_copy_chain_collapses(n: nat, leaf: SsaOp, choices: Seq<Choice>)
    requires
        leaf.shape().arity() == 0,
        n < MAX_OPS,
    ensures
        simplified(copy_chain(n, leaf), choices) == seq![leaf.with_slots(0, 0, 0)],
{
    lemma_chain_walk(n, leaf, choices, n);
}

/// The register tape of a collapsed chain is one operation too, whatever
/// the number of registers: the operation at the end of the chain, writing
/// register 0.
pub proof fn lemma_copy_chain_code(
    n: nat,
    leaf: SsaOp,
    choices: Seq<Choice>,
    registers: int,
)
    requires
        leaf.shape().arity() == 0,
        n < MAX_OPS,
    ensures
        allocated(simplified(copy_chain(n, leaf), choices), registers) == seq![
            leaf.with_slots(0, 0, 0).lower(0, 0, 0),
        ],
{
    lemma_copy_chain_collapses(n, leaf, choices);
    lemma_with_slots(leaf, 0, 0, 0);
    let op = leaf.with_slots(0, 0, 0);
    let one = seq![op];
    reveal_with_fuel(allocating, 2);
    assert(one.drop_last() =~= Seq::<SsaOp>::empty());
    assert(one.last() == op);
    assert(allocated(one, registers) =~= seq![op.lower(0, 0, 0)]);
}

} // verus!
