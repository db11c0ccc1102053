//! From an expression graph to a single-assignment tape.
use vstd::prelude::*;
use crate::context::{graph_ok, term_of, var_index, Context, Node, Op};
use crate::error::Error;
use crate::op::Term;
use crate::regalloc::MAX_OPS;
use crate::simplify::SENTINEL;
use crate::ssa::{
    count_choices, denote, env_at, lemma_count_push, lemma_run_is_env, vars_below, wanted,
    well_formed, written, SsaTape,
};
use crate::ssa_op::{lemma_built, SsaOp};

verus! {

/// Node `n` reads node `c` from a slot. A constant operand is written into
/// the operation as an immediate where the operation has a form for it: on
/// the right of any operation of two operands, and on the left where the
/// right operand is no constant.
pub open spec fn wants(ops: Seq<Op>, n: int, c: int) -> bool {
    match ops[n] {
        Op::Unary(_, a) => c == a.0,
        Op::Binary(_, a, b) => if ops[b.0 as int] is Const {
            c == a.0
        } else if ops[a.0 as int] is Const {
            c == b.0
        } else {
            c == a.0 || c == b.0
        },
        _ => false,
    }
}

/// The operation for node `n`, given the slot of each node and the index
/// of each variable.
pub open spec fn lowered(ops: Seq<Op>, slot: Seq<u32>, ids: Seq<u32>, n: int) -> SsaOp {
    let o = slot[n];
    match ops[n] {
        Op::Input(axis) => SsaOp::Input(o, axis),
        Op::Var(v) => SsaOp::Var(o, ids[v as int]),
        Op::Const(c) => SsaOp::CopyImm(o, c),
        Op::Unary(k, a) => SsaOp::of_unary(k, o, slot[a.0 as int]),
        Op::Binary(k, a, b) => match ops[b.0 as int] {
            Op::Const(c) => SsaOp::of_reg_imm(k, o, slot[a.0 as int], c),
            _ => match ops[a.0 as int] {
                Op::Const(c) => SsaOp::of_imm_reg(k, o, slot[b.0 as int], c),
                _ => SsaOp::of_binary(k, o, slot[a.0 as int], slot[b.0 as int]),
            },
        },
    }
}

/// A node listed before position `j` reads the node listed at `j` from a
/// slot.
spec fn sought(ops: Seq<Op>, order: Seq<usize>, j: int) -> bool {
    exists|p: int| 0 <= p < j && #[trigger] wants(ops, order[p] as int, order[j] as int)
}

/// A plan for a tape: `order` lists the nodes that get a slot, the root
/// first, and `slot` gives each of them its place in that list. Every node
/// that a listed node reads from a slot is listed too, after that node, and
/// every listed node but the root is read by one listed before it.
spec fn plan_ok(ops: Seq<Op>, root: int, slot: Seq<u32>, order: Seq<usize>) -> bool {
    &&& 0 <= root < ops.len()
    &&& slot.len() == root + 1
    &&& 0 < order.len() <= MAX_OPS
    &&& order[0] == root
    &&& forall|j: int|
        0 <= j < order.len() ==> (#[trigger] order[j]) <= root && slot[order[j] as int] == j
    &&& forall|j: int, c: int|
        0 <= j < order.len() && 0 <= c <= root && #[trigger] wants(ops, order[j] as int, c) ==> j
            < slot[c] < order.len() && order[slot[c] as int] == c
    &&& forall|j: int| 0 < j < order.len() ==> #[trigger] sought(ops, order, j)
}

/// The tape follows the plan: the operation at each position is the one
/// for the node listed there.
spec fn follows(
    ops: Seq<Op>,
    slot: Seq<u32>,
    ids: Seq<u32>,
    order: Seq<usize>,
    tape: Seq<SsaOp>,
) -> bool {
    &&& tape.len() == order.len()
    &&& forall|j: int|
        0 <= j < tape.len() ==> #[trigger] tape[j] == lowered(ops, slot, ids, order[j] as int)
}

/// The variables of the listed nodes have indices, and each index leads to
/// the variable's name.
spec fn named(
    ops: Seq<Op>,
    vars: Seq<Seq<char>>,
    ids: Seq<u32>,
    order: Seq<usize>,
    names: Seq<Seq<char>>,
) -> bool {
    &&& ids.len() == vars.len()
    &&& forall|j: int|
        0 <= j < order.len() ==> ((#[trigger] ops[order[j] as int]) matches Op::Var(v) ==> ids[v as int]
            < names.len() && names[ids[v as int] as int] == vars[v as int])
    &&& forall|i: int, j: int| 0 <= i < j < names.len() ==> names[i] != names[j]
}

/// What the operation for a listed node writes and reads.
proof fn lemma_lowered(ops: Seq<Op>, vars: Seq<Seq<char>>, slot: Seq<u32>, ids: Seq<u32>, n: int)
    requires
        graph_ok(ops, vars),
        0 <= n < ops.len(),
    ensures
        lowered(ops, slot, ids, n).out() == slot[n],
        forall|s: u32|
            lowered(ops, slot, ids, n).reads(s) ==> exists|c: int|
                0 <= c < n && #[trigger] wants(ops, n, c) && slot[c] == s,
        forall|c: int| #[trigger] wants(ops, n, c) ==> lowered(ops, slot, ids, n).reads(slot[c]),
{
    let op = lowered(ops, slot, ids, n);
    match ops[n] {
        Op::Unary(k, a) => {
            lemma_built(k, crate::op::BinaryKind::Add, slot[n], slot[a.0 as int], 0, 0);
            assert(wants(ops, n, a.0 as int));
        },
        Op::Binary(k, a, b) => {
            match ops[b.0 as int] {
                Op::Const(c) => {
                    lemma_built(crate::op::UnaryKind::Neg, k, slot[n], slot[a.0 as int], 0, c);
                    assert(wants(ops, n, a.0 as int));
                },
                _ => match ops[a.0 as int] {
                    Op::Const(c) => {
                        lemma_built(crate::op::UnaryKind::Neg, k, slot[n], slot[b.0 as int], 0, c);
                        assert(wants(ops, n, b.0 as int));
                    },
                    _ => {
                        lemma_built(
                            crate::op::UnaryKind::Neg,
                            k,
                            slot[n],
                            slot[a.0 as int],
                            slot[b.0 as int],
                            0,
                        );
                        assert(wants(ops, n, a.0 as int));
                        assert(wants(ops, n, b.0 as int));
                    },
                },
            }
        },
        _ => {},
    }
}

/// A tape that follows a plan is well formed.
proof fn lemma_plan_well_formed(
    ops: Seq<Op>,
    vars: Seq<Seq<char>>,
    root: int,
    slot: Seq<u32>,
    ids: Seq<u32>,
    order: Seq<usize>,
    tape: Seq<SsaOp>,
)
    requires
        graph_ok(ops, vars),
        plan_ok(ops, root, slot, order),
        follows(ops, slot, ids, order, tape),
    ensures
        well_formed(tape),
        forall|j: int| 0 <= j < tape.len() ==> (#[trigger] tape[j]).out() == j,
{
    assert forall|j: int| 0 <= j < tape.len() implies (#[trigger] tape[j]).out() == j by {
        lemma_lowered(ops, vars, slot, ids, order[j] as int);
    }
    assert forall|s: int| 0 <= s < tape.len() implies #[trigger] written(tape, s) by {
        assert(tape[s].out() == s);
    }
    assert forall|k: int, s: u32| 0 <= k < tape.len() && #[trigger] tape[k].reads(s) implies k
        < s < tape.len() by {
        let n = order[k] as int;
        lemma_lowered(ops, vars, slot, ids, n);
        let c = choose|c: int| 0 <= c < n && #[trigger] wants(ops, n, c) && slot[c] == s;
        assert(order[s as int] == c);
    }
    assert forall|k: int|
        0 <= k < tape.len() implies ((#[trigger] tape[k]).shape().arity() >= 1 ==> tape[k].lhs()
        < tape.len()) && (tape[k].shape().arity() == 2 ==> tape[k].rhs() < tape.len()) by {
        if tape[k].shape().arity() >= 1 {
            assert(tape[k].reads(tape[k].lhs()));
        }
        if tape[k].shape().arity() == 2 {
            assert(tape[k].reads(tape[k].rhs()));
        }
    }
    assert forall|j: int, k: int| 0 <= j <= k < tape.len() implies !(#[trigger] tape[k]).reads(
        (#[trigger] tape[j]).out(),
    ) by {
        if tape[k].reads(tape[j].out()) {
            assert(k < tape[j].out());
        }
    }
    assert forall|k: int| 0 < k < tape.len() implies #[trigger] wanted(tape, k) by {
        assert(sought(ops, order, k));
        let p = choose|p: int| 0 <= p < k && #[trigger] wants(ops, order[p] as int, order[k] as int);
        lemma_lowered(ops, vars, slot, ids, order[p] as int);
        assert(tape[p].reads(slot[order[k] as int]));
        assert(tape[k].out() == k);
    }
}

/// In a tape that follows a plan, each slot holds the expression of the
/// node that the plan lists for it.
proof fn lemma_plan_terms(
    ops: Seq<Op>,
    vars: Seq<Seq<char>>,
    root: int,
    slot: Seq<u32>,
    ids: Seq<u32>,
    order: Seq<usize>,
    names: Seq<Seq<char>>,
    tape: Seq<SsaOp>,
    env: Map<u32, Term>,
    k: int,
)
    requires
        graph_ok(ops, vars),
        plan_ok(ops, root, slot, order),
        follows(ops, slot, ids, order, tape),
        named(ops, vars, ids, order, names),
        0 <= k <= tape.len(),
    ensures
        forall|j: int|
            k <= j < tape.len() ==> env_at(tape, env, k)[j as u32] == #[trigger] term_of(
                ops,
                vars,
                names,
                order[j] as int,
            ),
    decreases tape.len() - k,
{
    if k < tape.len() {
        lemma_plan_terms(ops, vars, root, slot, ids, order, names, tape, env, k + 1);
        lemma_plan_well_formed(ops, vars, root, slot, ids, order, tape);
        let n = order[k] as int;
        let op = tape[k];
        let e = env_at(tape, env, k + 1);
        assert(op == lowered(ops, slot, ids, n));
        assert(op.out() == k);
        assert(op.shape().apply(e[op.lhs()], e[op.rhs()]) == term_of(ops, vars, names, n)) by {
            match ops[n] {
                Op::Var(v) => {
                    let i = ids[v as int];
                    assert(names[i as int] == vars[v as int]);
                    assert(names.contains(vars[v as int]));
                    let x = names.index_of(vars[v as int]);
                    assert(names[x] == vars[v as int]);
                    assert(x == i);
                },
                Op::Unary(kind, a) => {
                    lemma_built(kind, crate::op::BinaryKind::Add, slot[n], slot[a.0 as int], 0, 0);
                    assert(wants(ops, n, a.0 as int));
                    let s = slot[a.0 as int];
                    assert(order[s as int] == a.0);
                    assert(e[s] == term_of(ops, vars, names, order[s as int] as int));
                },
                Op::Binary(kind, a, b) => {
                    let sa = slot[a.0 as int];
                    let sb = slot[b.0 as int];
                    lemma_built(crate::op::UnaryKind::Neg, kind, slot[n], sa, sb, 0);
                    match ops[b.0 as int] {
                        Op::Const(c) => {
                            lemma_built(crate::op::UnaryKind::Neg, kind, slot[n], sa, 0, c);
                            assert(term_of(ops, vars, names, b.0 as int) == Term::Imm(c));
                            assert(wants(ops, n, a.0 as int));
                            assert(order[sa as int] == a.0);
                            assert(e[sa] == term_of(ops, vars, names, order[sa as int] as int));
                        },
                        _ => match ops[a.0 as int] {
                            Op::Const(c) => {
                                lemma_built(crate::op::UnaryKind::Neg, kind, slot[n], sb, 0, c);
                                assert(term_of(ops, vars, names, a.0 as int) == Term::Imm(c));
                                assert(wants(ops, n, b.0 as int));
                                assert(order[sb as int] == b.0);
                                assert(e[sb] == term_of(ops, vars, names, order[sb as int] as int));
                            },
                            _ => {
                                assert(wants(ops, n, a.0 as int));
                                assert(wants(ops, n, b.0 as int));
                                assert(order[sa as int] == a.0);
                                assert(order[sb as int] == b.0);
                                assert(e[sa] == term_of(ops, vars, names, order[sa as int] as int));
                                assert(e[sb] == term_of(ops, vars, names, order[sb as int] as int));
                            },
                        },
                    }
                },
                _ => {},
            }
        }
        assert forall|j: int| k <= j < tape.len() implies env_at(tape, env, k)[j as u32]
            == #[trigger] term_of(ops, vars, names, order[j] as int) by {
            if j > k {
                assert(e[j as u32] == term_of(ops, vars, names, order[j] as int));
            }
        }
    }
}

/// The texts of a list of strings.
spec fn texts(names: Seq<String>) -> Seq<Seq<char>> {
    Seq::new(names.len(), |i: int| names[i]@)
}

/// Reads a node that is known to be one of the graph.
fn node_at(ctx: &Context, n: usize) -> (r: Op)
    requires
        n < ctx.ops().len(),
    ensures
        r == ctx.ops()[n as int],
{
    match ctx.get_op(Node(n)) {
        Some(op) => op,
        None => Op::Const(0),
    }
}

/// Tells whether a node is a constant.
fn is_const(op: Op) -> (r: bool)
    ensures
        r == (op is Const),
{
    match op {
        Op::Const(_) => true,
        _ => false,
    }
}

/// The list `acc` with node `n` at its end, unless it holds `n` already.
pub open spec fn with_node(acc: Seq<usize>, n: int) -> Seq<usize> {
    if acc.contains(n as usize) {
        acc
    } else {
        acc.push(n as usize)
    }
}

/// The nodes that node `n` needs in slots, and `n` itself, in the order in
/// which they are evaluated: each node after the nodes that it reads, the
/// left operand of an operation before the right one. Nodes that `acc`
/// lists already are not listed again.
pub open spec fn post(ops: Seq<Op>, n: int, acc: Seq<usize>) -> Seq<usize>
    decreases n,
{
    if n < 0 || n >= ops.len() || acc.contains(n as usize) {
        acc
    } else {
        match ops[n] {
            Op::Unary(_, a) => if a.0 < n {
                with_node(post(ops, a.0 as int, acc), n)
            } else {
                with_node(acc, n)
            },
            Op::Binary(_, a, b) => if a.0 < n && b.0 < n {
                if ops[b.0 as int] is Const {
                    with_node(post(ops, a.0 as int, acc), n)
                } else if ops[a.0 as int] is Const {
                    with_node(post(ops, b.0 as int, acc), n)
                } else {
                    with_node(post(ops, b.0 as int, post(ops, a.0 as int, acc)), n)
                }
            } else {
                with_node(acc, n)
            },
            _ => with_node(acc, n),
        }
    }
}

/// The nodes of the tape for `root`, in the order of the tape: the root
/// first, every node before the nodes that it reads.
pub open spec fn listing(ops: Seq<Op>, root: int) -> Seq<usize> {
    post(ops, root, Seq::empty()).reverse()
}

/// The slot of each of the first `len` nodes: its place in `order`, or
/// `SENTINEL` if it has none.
pub open spec fn slots_of(order: Seq<usize>, len: nat) -> Seq<u32> {
    Seq::new(
        len,
        |n: int|
            if order.contains(n as usize) {
                order.index_of(n as usize) as u32
            } else {
                SENTINEL
            },
    )
}

/// The names of the variables that the first `j` nodes of `order` read,
/// in the order in which they are met.
pub open spec fn names_upto(
    ops: Seq<Op>,
    vars: Seq<Seq<char>>,
    order: Seq<usize>,
    j: nat,
) -> Seq<Seq<char>>
    decreases j,
{
    if j == 0 {
        Seq::empty()
    } else {
        let before = names_upto(ops, vars, order, (j - 1) as nat);
        match ops[order[j - 1] as int] {
            Op::Var(v) => if before.contains(vars[v as int]) {
                before
            } else {
                before.push(vars[v as int])
            },
            _ => before,
        }
    }
}

/// The names of the variables of the tape for `root`, each at its index.
pub open spec fn flat_names(ops: Seq<Op>, vars: Seq<Seq<char>>, root: int) -> Seq<Seq<char>> {
    let order = listing(ops, root);
    names_upto(ops, vars, order, order.len())
}

/// The index that each variable of the graph has among `names`.
pub open spec fn ids_of(vars: Seq<Seq<char>>, names: Seq<Seq<char>>) -> Seq<u32> {
    Seq::new(vars.len(), |v: int| var_index(names, vars[v]))
}

/// The tape for `root`: one operation for each node that the root needs in
/// a slot, in the order of `listing`, each writing the slot that is its
/// place in the tape.
pub open spec fn flattened(ops: Seq<Op>, vars: Seq<Seq<char>>, root: int) -> Seq<SsaOp> {
    let order = listing(ops, root);
    let slot = slots_of(order, (root + 1) as nat);
    let ids = ids_of(vars, flat_names(ops, vars, root));
    Seq::new(order.len(), |j: int| lowered(ops, slot, ids, order[j] as int))
}

/// The list `acc` once the frames of the stack have been worked off, the
/// last first: a frame that enters a node lists the node after what it
/// needs, and one that leaves a node lists the node itself.
spec fn drain(ops: Seq<Op>, stack: Seq<(usize, bool)>, acc: Seq<usize>) -> Seq<usize>
    decreases stack.len(),
{
    if stack.len() == 0 {
        acc
    } else if stack.last().1 {
        drain(ops, stack.drop_last(), with_node(acc, stack.last().0 as int))
    } else {
        drain(ops, stack.drop_last(), post(ops, stack.last().0 as int, acc))
    }
}

/// A frame put on the stack is the first to be worked off.
proof fn lemma_drain_push(ops: Seq<Op>, stack: Seq<(usize, bool)>, f: (usize, bool), acc: Seq<usize>)
    ensures
        drain(ops, stack.push(f), acc) == if f.1 {
            drain(ops, stack, with_node(acc, f.0 as int))
        } else {
            drain(ops, stack, post(ops, f.0 as int, acc))
        },
{
    assert(stack.push(f).drop_last() == stack);
    assert(stack.push(f).last() == f);
}

/// Four to the power `k`.
spec fn pow4(k: nat) -> nat
    decreases k,
{
    if k == 0 {
        1
    } else {
        4 * pow4((k - 1) as nat)
    }
}

/// Powers of four grow.
proof fn lemma_pow4(a: nat, b: nat)
    requires
        a <= b,
    ensures
        1 <= pow4(a) <= pow4(b),
    decreases b,
{
    if a < b {
        lemma_pow4(a, (b - 1) as nat);
    } else if a > 0 {
        lemma_pow4((a - 1) as nat, (a - 1) as nat);
    }
}

/// A bound on the work that a frame stands for.
spec fn frame_weight(f: (usize, bool)) -> nat {
    if f.1 {
        1
    } else {
        pow4((f.0 + 1) as nat)
    }
}

/// A bound on the work that a stack stands for.
spec fn weight(stack: Seq<(usize, bool)>) -> nat
    decreases stack.len(),
{
    if stack.len() == 0 {
        0
    } else {
        weight(stack.drop_last()) + frame_weight(stack.last())
    }
}

/// A frame put on the stack adds its weight.
proof fn lemma_weight_push(stack: Seq<(usize, bool)>, f: (usize, bool))
    ensures
        weight(stack.push(f)) == weight(stack) + frame_weight(f),
{
    assert(stack.push(f).drop_last() == stack);
    assert(stack.push(f).last() == f);
}

/// A list of distinct numbers below `bound` is no longer than `bound`.
proof fn lemma_distinct_bound(s: Seq<usize>, bound: nat)
    requires
        forall|i: int, j: int| 0 <= i < j < s.len() ==> s[i] != s[j],
        forall|i: int| 0 <= i < s.len() ==> s[i] < bound,
    ensures
        s.len() <= bound,
    decreases bound,
{
    if s.len() > 0 {
        if bound == 0 {
            assert(s[0] < bound);
        } else {
            let top = (bound - 1) as usize;
            if exists|i: int| 0 <= i < s.len() && s[i] == top {
                let i = choose|i: int| 0 <= i < s.len() && s[i] == top;
                let t = s.remove(i);
                assert forall|x: int| 0 <= x < t.len() implies t[x] < bound - 1 by {
                    if x < i {
                        assert(t[x] == s[x]);
                        assert(s[x] != s[i]);
                    } else {
                        assert(t[x] == s[x + 1]);
                        assert(s[i] != s[x + 1]);
                    }
                }
                assert forall|x: int, y: int| 0 <= x < y < t.len() implies t[x] != t[y] by {
                    let x0 = if x < i {
                        x
                    } else {
                        x + 1
                    };
                    let y0 = if y < i {
                        y
                    } else {
                        y + 1
                    };
                    assert(t[x] == s[x0] && t[y] == s[y0]);
                }
                lemma_distinct_bound(t, (bound - 1) as nat);
            } else {
                assert forall|x: int| 0 <= x < s.len() implies s[x] < bound - 1 by {
                    assert(s[x] != top);
                }
                lemma_distinct_bound(s, (bound - 1) as nat);
            }
        }
    }
}

/// Node `c` stands in the list before position `i`.
spec fn listed_before(r: Seq<usize>, c: int, i: int) -> bool {
    exists|j: int| 0 <= j < i && j < r.len() && #[trigger] r[j] == c
}

/// A node listed after position `i` reads the node at `i` from a slot.
spec fn used_later(ops: Seq<Op>, r: Seq<usize>, i: int) -> bool {
    exists|j: int| i < j < r.len() && #[trigger] wants(ops, r[j] as int, r[i] as int)
}

/// The list names nodes of the graph, none twice, and each after the nodes
/// that it reads from slots.
spec fn settled(ops: Seq<Op>, r: Seq<usize>) -> bool {
    &&& forall|i: int| 0 <= i < r.len() ==> (#[trigger] r[i]) < ops.len()
    &&& forall|i: int, j: int| 0 <= i < j < r.len() ==> r[i] != r[j]
    &&& forall|i: int, c: int|
        0 <= i < r.len() && #[trigger] wants(ops, r[i] as int, c) ==> listed_before(r, c, i)
}

/// Adding a node whose operands are listed keeps a list settled.
proof fn lemma_with_node(ops: Seq<Op>, vars: Seq<Seq<char>>, s: Seq<usize>, n: int)
    requires
        graph_ok(ops, vars),
        0 <= n < ops.len(),
        n <= usize::MAX,
        settled(ops, s),
        forall|c: int| #[trigger] wants(ops, n, c) ==> s.contains(c as usize) && 0 <= c < n,
    ensures
        settled(ops, with_node(s, n)),
        with_node(s, n).contains(n as usize),
{
    let r = with_node(s, n);
    if s.contains(n as usize) {
    } else {
        let m = s.len() as int;
        assert(r[m] == n);
        assert forall|i: int, c: int|
            0 <= i < r.len() && #[trigger] wants(ops, r[i] as int, c) implies listed_before(
            r,
            c,
            i,
        ) by {
            if i < m {
                assert(r[i] == s[i]);
                assert(listed_before(s, c, i));
                let j = choose|j: int| 0 <= j < i && j < s.len() && #[trigger] s[j] == c;
                assert(r[j] == c);
            } else {
                assert(s.contains(c as usize));
                let j = choose|j: int| 0 <= j < s.len() && s[j] == c as usize;
                assert(r[j] == c);
            }
        }
        assert forall|i: int, j: int| 0 <= i < j < r.len() implies r[i] != r[j] by {
            if j < m {
                assert(r[i] == s[i] && r[j] == s[j]);
            } else {
                assert(r[i] == s[i]);
            }
        }
    }
}

/// What listing a node adds to a settled list: the list stays settled and
/// keeps what it held; the node is in it; what is new is no larger than the
/// node; and every new node but the node itself is read by one listed
/// later.
proof fn lemma_post(ops: Seq<Op>, vars: Seq<Seq<char>>, n: int, acc: Seq<usize>)
    requires
        graph_ok(ops, vars),
        0 <= n < ops.len(),
        n <= usize::MAX,
        settled(ops, acc),
    ensures
        settled(ops, post(ops, n, acc)),
        acc.len() <= post(ops, n, acc).len(),
        forall|i: int| 0 <= i < acc.len() ==> #[trigger] post(ops, n, acc)[i] == acc[i],
        post(ops, n, acc).contains(n as usize),
        forall|i: int|
            acc.len() <= i < post(ops, n, acc).len() ==> #[trigger] post(ops, n, acc)[i] <= n,
        forall|i: int|
            acc.len() <= i < post(ops, n, acc).len() && post(ops, n, acc)[i] != n ==> #[trigger] used_later(
                ops,
                post(ops, n, acc),
                i,
            ),
        !acc.contains(n as usize) ==> post(ops, n, acc).last() == n,
    decreases n,
{
    let r = post(ops, n, acc);
    if acc.contains(n as usize) {
    } else {
        // The list before the node itself is added.
        let s = match ops[n] {
            Op::Unary(_, a) => post(ops, a.0 as int, acc),
            Op::Binary(_, a, b) => if ops[b.0 as int] is Const {
                post(ops, a.0 as int, acc)
            } else if ops[a.0 as int] is Const {
                post(ops, b.0 as int, acc)
            } else {
                post(ops, b.0 as int, post(ops, a.0 as int, acc))
            },
            _ => acc,
        };
        assert(r == with_node(s, n));
        match ops[n] {
            Op::Unary(_, a) => {
                lemma_post(ops, vars, a.0 as int, acc);
            },
            Op::Binary(_, a, b) => {
                if ops[b.0 as int] is Const {
                    lemma_post(ops, vars, a.0 as int, acc);
                } else if ops[a.0 as int] is Const {
                    lemma_post(ops, vars, b.0 as int, acc);
                } else {
                    let s1 = post(ops, a.0 as int, acc);
                    lemma_post(ops, vars, a.0 as int, acc);
                    lemma_post(ops, vars, b.0 as int, s1);
                    assert(s1.contains(a.0));
                    let ja = choose|j: int| 0 <= j < s1.len() && s1[j] == a.0;
                    assert(s[ja] == s1[ja]);
                    assert forall|i: int| 0 <= i < acc.len() implies s[i] == acc[i] by {
                        assert(s1[i] == acc[i]);
                        assert(s[i] == s1[i]);
                    }
                    assert forall|i: int| acc.len() <= i < s.len() implies #[trigger] s[i] <= n by {
                        if i < s1.len() {
                            assert(s[i] == s1[i]);
                            assert(s1[i] <= a.0);
                        } else {
                            assert(s[i] <= b.0);
                        }
                    }
                    assert forall|i: int|
                        acc.len() <= i < s.len() && s[i] != a.0 && s[i] != b.0 implies #[trigger] used_later(
                        ops,
                        s,
                        i,
                    ) by {
                        if i < s1.len() {
                            assert(s[i] == s1[i]);
                            assert(used_later(ops, s1, i));
                            let j = choose|j: int|
                                i < j < s1.len() && #[trigger] wants(
                                    ops,
                                    s1[j] as int,
                                    s1[i] as int,
                                );
                            assert(s[j] == s1[j]);
                            assert(wants(ops, s[j] as int, s[i] as int));
                        } else {
                            assert(used_later(ops, s, i));
                        }
                    }
                }
            },
            _ => {},
        }
        // In every case: `s` is settled, holds `acc` and the operands that
        // `n` reads, and is new only below `n`.
        assert(settled(ops, s));
        assert forall|c: int| #[trigger] wants(ops, n, c) implies s.contains(c as usize) && 0 <= c
            < n by {}
        lemma_with_node(ops, vars, s, n);
        assert forall|i: int| acc.len() <= i < s.len() implies s[i] < n by {
            assert(s[i] <= n);
            if s[i] == n {
                match ops[n] {
                    Op::Unary(_, a) => {
                        assert(s[i] <= a.0);
                    },
                    Op::Binary(_, a, b) => {
                        assert(s[i] <= a.0 || s[i] <= b.0);
                    },
                    _ => {},
                }
            }
        }
        assert(!s.contains(n as usize)) by {
            if s.contains(n as usize) {
                let j = choose|j: int| 0 <= j < s.len() && s[j] == n as usize;
                if j < acc.len() {
                    assert(acc[j] == s[j]);
                } else {
                    assert(s[j] < n);
                }
            }
        }
        let m = s.len() as int;
        assert(r == s.push(n as usize));
        assert(r[m] == n);
        assert forall|i: int| 0 <= i < acc.len() implies #[trigger] r[i] == acc[i] by {
            assert(r[i] == s[i]);
        }
        assert forall|i: int| acc.len() <= i < r.len() implies #[trigger] r[i] <= n by {
            if i < m {
                assert(r[i] == s[i]);
            }
        }
        assert forall|i: int| acc.len() <= i < r.len() && r[i] != n implies #[trigger] used_later(
            ops,
            r,
            i,
        ) by {
            assert(i < m);
            assert(r[i] == s[i]);
            if wants(ops, n, s[i] as int) {
                assert(wants(ops, r[m] as int, r[i] as int));
            } else {
                assert(used_later(ops, s, i));
                let j = choose|j: int|
                    i < j < s.len() && #[trigger] wants(ops, s[j] as int, s[i] as int);
                assert(r[j] == s[j]);
                assert(wants(ops, r[j] as int, r[i] as int));
            }
        }
    }
}

/// The listing of a root, with each node's place in it for its slot, is a
/// plan.
proof fn lemma_listing_plan(ops: Seq<Op>, vars: Seq<Seq<char>>, root: int)
    requires
        graph_ok(ops, vars),
        0 <= root < ops.len(),
        root < MAX_OPS,
    ensures
        plan_ok(ops, root, slots_of(listing(ops, root), (root + 1) as nat), listing(ops, root)),
{
    let list = post(ops, root, Seq::empty());
    let order = listing(ops, root);
    let slot = slots_of(order, (root + 1) as nat);
    let len = list.len() as int;
    lemma_post(ops, vars, root, Seq::empty());
    assert forall|i: int| 0 <= i < list.len() implies list[i] < root + 1 by {
        assert(list[i] <= root);
    }
    lemma_distinct_bound(list, (root + 1) as nat);
    assert(list.last() == root);
    // Each node of the order stands at one place only.
    assert forall|j: int| 0 <= j < order.len() implies (#[trigger] order[j]) <= root
        && slot[order[j] as int] == j by {
        assert(order[j] == list[len - 1 - j]);
        assert(list[len - 1 - j] <= root);
        assert(order.contains(order[j]));
        let x = order.index_of(order[j]);
        assert(0 <= x < order.len() && order[x] == order[j]);
        assert(order[x] == list[len - 1 - x]);
        if x != j {
            if x < j {
                assert(list[len - 1 - j] != list[len - 1 - x]);
            } else {
                assert(list[len - 1 - x] != list[len - 1 - j]);
            }
        }
    }
    assert forall|j: int, c: int|
        0 <= j < order.len() && 0 <= c <= root && #[trigger] wants(
            ops,
            order[j] as int,
            c,
        ) implies slot[c] < order.len() && order[slot[c] as int] == c && slot[c] > j by {
        let i = len - 1 - j;
        assert(order[j] == list[i]);
        assert(wants(ops, list[i] as int, c));
        assert(listed_before(list, c, i));
        let i2 = choose|i2: int| 0 <= i2 < i && i2 < list.len() && #[trigger] list[i2] == c;
        let j2 = len - 1 - i2;
        assert(order[j2] == list[i2]);
        assert(slot[order[j2] as int] == j2);
    }
    assert forall|j: int| 0 < j < order.len() implies #[trigger] sought(ops, order, j) by {
        let i = len - 1 - j;
        assert(order[j] == list[i]);
        assert(list[i] != list[len - 1]);
        assert(used_later(ops, list, i));
        let i2 = choose|i2: int|
            i < i2 < list.len() && #[trigger] wants(ops, list[i2] as int, list[i] as int);
        let p = len - 1 - i2;
        assert(order[p] == list[i2]);
        assert(wants(ops, order[p] as int, order[j] as int));
    }
}

/// Lists the nodes that get a slot, the root first and every node before
/// the nodes that it reads, and gives each its place in the list. The walk
/// goes down the left operand before the right one and keeps what is still
/// to do on a stack of its own.
fn plan(ctx: &Context, root: usize) -> (r: (Vec<u32>, Vec<usize>))
    requires
        ctx.wf(),
        root < ctx.ops().len(),
        root < MAX_OPS,
    ensures
        r.1@ == listing(ctx.ops(), root as int),
        r.0@ == slots_of(r.1@, (root + 1) as nat),
        plan_ok(ctx.ops(), root as int, r.0@, r.1@),
{
    let ghost ops = ctx.ops();
    let ghost goal = post(ops, root as int, Seq::empty());
    let m: usize = root + 1;
    let mut pos: Vec<u32> = vec![u32::MAX; m];
    let mut list: Vec<usize> = Vec::new();
    let mut stack: Vec<(usize, bool)> = Vec::new();
    stack.push((root, false));
    proof {
        lemma_drain_push(ops, Seq::empty(), (root, false), Seq::empty());
        assert(stack@ == Seq::<(usize, bool)>::empty().push((root, false)));
    }
    while stack.len() > 0
        invariant
            ctx.wf(),
            ops == ctx.ops(),
            m == root + 1,
            root < ops.len(),
            root < MAX_OPS,
            pos@.len() == m,
            list@.len() <= m,
            goal == post(ops, root as int, Seq::empty()),
            drain(ops, stack@, list@) == goal,
            forall|i: int| 0 <= i < stack@.len() ==> (#[trigger] stack@[i]).0 <= root,
            forall|i: int|
                0 <= i < list@.len() ==> (#[trigger] list@[i]) <= root && pos@[list@[i] as int] == i,
            forall|n: int|
                0 <= n <= root && (#[trigger] pos@[n]) != SENTINEL ==> pos@[n] < list@.len()
                    && list@[pos@[n] as int] == n,
        decreases weight(stack@),
    {
        let ghost before = stack@;
        let ghost acc = list@;
        let top = stack[stack.len() - 1];
        stack.pop();
        let n: usize = top.0;
        let ghost rest = stack@;
        proof {
            assert(before =~= rest.push(top));
            lemma_drain_push(ops, rest, top, acc);
            lemma_weight_push(rest, top);
            lemma_pow4(0, n as nat);
            assert(acc.contains(n) == (pos@[n as int] != SENTINEL)) by {
                if acc.contains(n) {
                    let i = choose|i: int| 0 <= i < acc.len() && acc[i] == n;
                    assert(pos@[acc[i] as int] == i);
                }
            }
            lemma_pow4(0, (n + 1) as nat);
        }
        if top.1 {
            if pos[n] == u32::MAX {
                proof {
                    let longer = acc.push(n);
                    assert forall|i: int, j: int| 0 <= i < j < longer.len() implies longer[i]
                        != longer[j] by {
                        assert(pos@[acc[i] as int] == i);
                        if j < acc.len() {
                            assert(pos@[acc[j] as int] == j);
                        }
                    }
                    assert forall|i: int| 0 <= i < longer.len() implies longer[i] < m by {
                        if i < acc.len() {
                            assert(acc[i] <= root);
                        }
                    }
                    lemma_distinct_bound(longer, m as nat);
                }
                pos[n] = list.len() as u32;
                list.push(n);
            }
        } else if pos[n] == u32::MAX {
            stack.push((n, true));
            proof {
                lemma_weight_push(rest, (n, true));
            }
            match node_at(ctx, n) {
                Op::Unary(_, a) => {
                    proof {
                        lemma_drain_push(ops, rest.push((n, true)), (a.0, false), acc);
                        lemma_drain_push(ops, rest, (n, true), post(ops, a.0 as int, acc));
                        lemma_weight_push(rest.push((n, true)), (a.0, false));
                        lemma_pow4((a.0 + 1) as nat, n as nat);
                    }
                    stack.push((a.0, false));
                },
                Op::Binary(_, a, b) => {
                    proof {
                        lemma_pow4((a.0 + 1) as nat, n as nat);
                        lemma_pow4((b.0 + 1) as nat, n as nat);
                    }
                    if is_const(node_at(ctx, b.0)) {
                        proof {
                            lemma_drain_push(ops, rest.push((n, true)), (a.0, false), acc);
                            lemma_drain_push(ops, rest, (n, true), post(ops, a.0 as int, acc));
                            lemma_weight_push(rest.push((n, true)), (a.0, false));
                        }
                        stack.push((a.0, false));
                    } else if is_const(node_at(ctx, a.0)) {
                        proof {
                            lemma_drain_push(ops, rest.push((n, true)), (b.0, false), acc);
                            lemma_drain_push(ops, rest, (n, true), post(ops, b.0 as int, acc));
                            lemma_weight_push(rest.push((n, true)), (b.0, false));
                        }
                        stack.push((b.0, false));
                    } else {
                        proof {
                            let s0 = rest.push((n, true));
                            let s1 = s0.push((b.0, false));
                            let first = post(ops, a.0 as int, acc);
                            lemma_drain_push(ops, s1, (a.0, false), acc);
                            lemma_drain_push(ops, s0, (b.0, false), first);
                            lemma_drain_push(ops, rest, (n, true), post(ops, b.0 as int, first));
                            lemma_weight_push(s0, (b.0, false));
                            lemma_weight_push(s1, (a.0, false));
                        }
                        stack.push((b.0, false));
                        stack.push((a.0, false));
                    }
                },
                _ => {
                    proof {
                        lemma_drain_push(ops, rest, (n, true), acc);
                    }
                },
            }
        }
    }
    proof {
        assert(list@ == goal);
        lemma_post(ops, ctx.names(), root as int, Seq::empty());
        lemma_listing_plan(ops, ctx.names(), root as int);
    }
    let count: usize = list.len();
    let mut order: Vec<usize> = Vec::with_capacity(count);
    let mut slot: Vec<u32> = vec![u32::MAX; m];
    let mut j: usize = 0;
    while j < count
        invariant
            count == list@.len(),
            j <= count,
            count <= m,
            root < MAX_OPS,
            m == root + 1,
            slot@.len() == m,
            pos@.len() == m,
            order@.len() == j,
            forall|i: int| 0 <= i < j ==> #[trigger] order@[i] == list@[count - 1 - i],
            forall|i: int|
                0 <= i < list@.len() ==> (#[trigger] list@[i]) <= root && pos@[list@[i] as int] == i,
            forall|n: int|
                0 <= n <= root && (#[trigger] pos@[n]) != SENTINEL ==> pos@[n] < list@.len()
                    && list@[pos@[n] as int] == n,
            forall|n: int|
                0 <= n <= root ==> #[trigger] slot@[n] == if pos@[n] != SENTINEL && pos@[n] >= count
                    - j {
                    (count - 1 - pos@[n]) as u32
                } else {
                    SENTINEL
                },
        decreases count - j,
    {
        let n: usize = list[count - 1 - j];
        proof {
            assert(pos@[list@[count - 1 - j] as int] == count - 1 - j);
        }
        slot[n] = j as u32;
        order.push(n);
        j = j + 1;
    }
    proof {
        assert(order@ =~= list@.reverse());
        let want = slots_of(order@, m as nat);
        assert forall|n: int| 0 <= n < m implies slot@[n] == want[n] by {
            if pos@[n] != SENTINEL {
                let i = count - 1 - pos@[n];
                assert(order@[i] == list@[pos@[n] as int]);
                assert(order@.contains(n as usize));
                let x = order@.index_of(n as usize);
                assert(order@[x] == list@[count - 1 - x]);
                assert(pos@[list@[count - 1 - x] as int] == count - 1 - x);
            } else {
                if order@.contains(n as usize) {
                    let x = choose|x: int| 0 <= x < order@.len() && order@[x] == n as usize;
                    assert(order@[x] == list@[count - 1 - x]);
                    assert(pos@[list@[count - 1 - x] as int] == count - 1 - x);
                }
            }
        }
        assert(slot@ =~= want);
    }
    (slot, order)
}

impl SsaTape {
    /// Flattens the expression of `root` into a tape.
    ///
    /// The graph is walked from the root, depth first and the left operand
    /// of an operation before the right one; a node is evaluated when the
    /// nodes that it reads have been, and the tape lists the nodes from the
    /// last evaluated, the root, to the first. Every node that the root
    /// depends on gets one slot, its place in the tape, however often it
    /// is used. A constant is written into the operation that uses it
    /// where that operation has a form with an immediate, and gets a slot
    /// of its own elsewhere. Variables are numbered in the order in which
    /// the tape, read from the root, comes to them.
    ///
    /// A root that is no node of `ctx` is refused, and so is one so far
    /// down the graph that the tape might need more than `MAX_OPS` slots.
    pub fn new(ctx: &Context, root: Node) -> (r: Result<SsaTape, Error>)
        requires
            ctx.wf(),
        ensures
            match r {
                Ok(t) => {
                    &&& root.0 < ctx.ops().len()
                    &&& root.0 < MAX_OPS
                    &&& t.wf()
                    &&& t@.len() > 0
                    &&& forall|j: int| 0 <= j < t@.len() ==> (#[trigger] t@[j]).out() == j
                    &&& t@ == flattened(ctx.ops(), ctx.names(), root.0 as int)
                    &&& t.names() == flat_names(ctx.ops(), ctx.names(), root.0 as int)
                    &&& denote(t@) == ctx.term(root, t.names())
                    &&& forall|i: int, j: int|
                        0 <= i < j < t.names().len() ==> t.names()[i] != t.names()[j]
                    &&& forall|i: int|
                        0 <= i < t.names().len() ==> ctx.names().contains(#[trigger] t.names()[i])
                },
                Err(e) => if root.0 >= ctx.ops().len() {
                    e == Error::BadNode
                } else {
                    e == Error::TooManyNodes && root.0 >= MAX_OPS
                },
            },
    {
        if root.0 >= ctx.len() {
            return Err(Error::BadNode);
        }
        if root.0 >= MAX_OPS {
            return Err(Error::TooManyNodes);
        }
        let (slot, order) = plan(ctx, root.0);
        let ghost ops = ctx.ops();
        let ghost vars = ctx.names();
        let count: usize = order.len();
        let mut ids: Vec<u32> = vec![u32::MAX; ctx.var_count()];
        let mut names: Vec<String> = Vec::new();
        let mut tape: Vec<SsaOp> = Vec::with_capacity(count);
        let mut choice_count: usize = 0;
        let ghost mut owner: Seq<int> = Seq::empty();
        let mut j: usize = 0;
        while j < count
            invariant
                ctx.wf(),
                ops == ctx.ops(),
                vars == ctx.names(),
                plan_ok(ops, root.0 as int, slot@, order@),
                count == order@.len(),
                texts(names@) == names_upto(ops, vars, order@, j as nat),
                j <= count,
                tape@.len() == j,
                ids@.len() == vars.len(),
                names@.len() <= j,
                owner.len() == names@.len(),
                choice_count == count_choices(tape@),
                forall|i: int|
                    0 <= i < j ==> #[trigger] tape@[i] == lowered(ops, slot@, ids@, order@[i] as int),
                forall|i: int|
                    0 <= i < j ==> ((#[trigger] ops[order@[i] as int]) matches Op::Var(v) ==> ids@[v as int]
                        != SENTINEL),
                forall|v: int|
                    0 <= v < ids@.len() && (#[trigger] ids@[v]) != SENTINEL ==> ids@[v] < names@.len()
                        && names@[ids@[v] as int]@ == vars[v] && owner[ids@[v] as int] == v,
                forall|i: int|
                    0 <= i < names@.len() ==> 0 <= (#[trigger] owner[i]) < ids@.len() && ids@[owner[i]]
                        == i,
            decreases count - j,
        {
            let n: usize = order[j];
            let o: u32 = j as u32;
            let ghost ids0 = ids@;
            let ghost names0 = texts(names@);
            let op: SsaOp = match node_at(ctx, n) {
                Op::Input(axis) => SsaOp::Input(o, axis),
                Op::Var(v) => {
                    if ids[v] == u32::MAX {
                        ids[v] = names.len() as u32;
                        names.push(ctx.var_name(v).clone());
                        proof {
                            owner = owner.push(v as int);
                        }
                    }
                    SsaOp::Var(o, ids[v])
                },
                Op::Const(c) => SsaOp::CopyImm(o, c),
                Op::Unary(kind, a) => SsaOp::unary(kind, o, slot[a.0]),
                Op::Binary(kind, a, b) => match node_at(ctx, b.0) {
                    Op::Const(c) => SsaOp::reg_imm(kind, o, slot[a.0], c),
                    _ => match node_at(ctx, a.0) {
                        Op::Const(c) => SsaOp::imm_reg(kind, o, slot[b.0], c),
                        _ => SsaOp::binary(kind, o, slot[a.0], slot[b.0]),
                    },
                },
            };
            proof {
                lemma_count_push(tape@, op);
                crate::ssa::lemma_count_bound(tape@);
                if let Op::Var(v) = ops[n as int] {
                    if ids0[v as int] == SENTINEL {
                        if names0.contains(vars[v as int]) {
                            let i = choose|i: int| 0 <= i < names0.len() && names0[i] == vars[v as int];
                            assert(ids0[owner[i]] == i);
                            assert(vars[owner[i]] == vars[v as int]);
                        }
                        assert(texts(names@) =~= names0.push(vars[v as int]));
                    } else {
                        assert(names0[ids0[v as int] as int] == vars[v as int]);
                        assert(texts(names@) =~= names0);
                    }
                } else {
                    assert(texts(names@) =~= names0);
                }
                assert forall|i: int| 0 <= i < j implies #[trigger] tape@[i] == lowered(
                    ops,
                    slot@,
                    ids@,
                    order@[i] as int,
                ) by {
                    assert(tape@[i] == lowered(ops, slot@, ids0, order@[i] as int));
                    if let Op::Var(v) = ops[order@[i] as int] {
                        assert(ids0[v as int] != SENTINEL);
                    }
                }
            }
            if op.has_choice() {
                choice_count = choice_count + 1;
            }
            tape.push(op);
            j = j + 1;
        }
        let r = SsaTape::from_parts(tape, choice_count, names);
        proof {
            let tn = r.names();
            assert(tn =~= texts(names@));
            assert(ids@ =~= ids_of(vars, tn)) by {
                assert forall|v: int| 0 <= v < vars.len() implies ids@[v] == var_index(
                    tn,
                    vars[v],
                ) by {
                    if ids@[v] != SENTINEL {
                        assert(tn[ids@[v] as int] == vars[v]);
                        let x = tn.index_of(vars[v]);
                        assert(tn[x] == vars[v]);
                        assert(ids@[owner[x]] == x);
                        assert(vars[owner[x]] == vars[v]);
                    } else if tn.contains(vars[v]) {
                        let i = choose|i: int| 0 <= i < tn.len() && tn[i] == vars[v];
                        assert(ids@[owner[i]] == i);
                        assert(vars[owner[i]] == vars[v]);
                    }
                }
            }
            assert(r@ =~= flattened(ops, vars, root.0 as int));
            assert forall|a: int, b: int| 0 <= a < b < tn.len() implies tn[a] != tn[b] by {
                assert(ids@[owner[a]] == a && ids@[owner[b]] == b);
                assert(tn[a] == vars[owner[a]] && tn[b] == vars[owner[b]]);
            }
            assert forall|i: int| 0 <= i < tn.len() implies ctx.names().contains(
                #[trigger] tn[i],
            ) by {
                assert(ids@[owner[i]] == i);
                assert(tn[i] == vars[owner[i]]);
            }
            assert(vars_below(r@, tn.len())) by {
                assert forall|k: int| 0 <= k < r@.len() implies ((
                #[trigger] r@[k]).shape() matches crate::op::Shape::Var(v) ==> v < tn.len()) by {
                    assert(r@[k] == lowered(ops, slot@, ids@, order@[k] as int));
                    match ops[order@[k] as int] {
                        Op::Unary(kind, a) => {
                            lemma_built(kind, crate::op::BinaryKind::Add, 0, 0, 0, 0);
                            lemma_built(
                                kind,
                                crate::op::BinaryKind::Add,
                                slot@[order@[k] as int],
                                slot@[a.0 as int],
                                0,
                                0,
                            );
                        },
                        Op::Binary(kind, a, b) => {
                            let c = match ops[b.0 as int] {
                                Op::Const(c) => c,
                                _ => match ops[a.0 as int] {
                                    Op::Const(c) => c,
                                    _ => 0,
                                },
                            };
                            lemma_built(
                                crate::op::UnaryKind::Neg,
                                kind,
                                slot@[order@[k] as int],
                                slot@[a.0 as int],
                                slot@[b.0 as int],
                                c,
                            );
                            lemma_built(
                                crate::op::UnaryKind::Neg,
                                kind,
                                slot@[order@[k] as int],
                                slot@[b.0 as int],
                                0,
                                c,
                            );
                        },
                        _ => {},
                    }
                }
            }
            assert(follows(ops, slot@, ids@, order@, r@));
            assert(named(ops, vars, ids@, order@, tn));
            lemma_plan_well_formed(ops, vars, root.0 as int, slot@, ids@, order@, r@);
            lemma_plan_terms(
                ops,
                vars,
                root.0 as int,
                slot@,
                ids@,
                order@,
                tn,
                r@,
                Map::empty(),
                0,
            );
            lemma_run_is_env(r@, Map::empty());
        }
        Ok(r)
    }
}

} // verus!
