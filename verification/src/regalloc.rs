//! Register allocation: from single-assignment slots to a bounded set of
//! registers, with spill slots for what does not fit.
use vstd::prelude::*;
use vstd::set_lib::{lemma_int_range, lemma_len_subset, lemma_map_size_bound, set_int_range};
use crate::lru::{touched, Lru};
use crate::op::Term;
use crate::reg_op::{
    lemma_run_regs_push, lemma_skeleton_push, run_regs, skeleton, spill, RegOp,
};
use crate::ssa::{awaited, lemma_awaited_next, lemma_awaited_push, live, roomy, SsaTape};
use crate::ssa_op::{lemma_lower, lemma_run_slots_push, run_slots, shapes, SsaOp};
use crate::tape::Tape;

verus! {

/// The longest tape that can be built and allocated: slots are numbered in
/// 32 bits, and the last 256 numbers are kept free.
pub const MAX_OPS: usize = 0xffff_feff;

/// Where the code that has been emitted expects to find a slot's value.
#[derive(Clone, Copy, Debug, PartialEq, Eq, Structural)]
pub enum Allocation {
    /// In a register.
    Register(u8),
    /// In a spill slot.
    Memory(u32),
    /// Nowhere: nothing emitted so far reads the slot.
    Unassigned,
}

impl Allocation {
    /// The number of the register or spill slot, or -1 for none.
    pub open spec fn home(self) -> int {
        match self {
            Allocation::Register(r) => r as int,
            Allocation::Memory(m) => spill(m),
            Allocation::Unassigned => -1,
        }
    }
}

/// The contents `s` hold, at the home of every assigned slot, the value
/// that the environment `e` gives the slot.
spec fn agree(alloc: Seq<Allocation>, s: Map<int, Term>, e: Map<u32, Term>) -> bool {
    forall|i: int|
        0 <= i < alloc.len() && (#[trigger] alloc[i]) != Allocation::Unassigned ==> s[alloc[i].home()]
            == e[i as u32]
}

/// Started from contents that agree with an environment, the register
/// tape `out` leaves in register 0 what the slot tape `fed` leaves in slot 0
/// when started from that environment.
spec fn faithful(alloc: Seq<Allocation>, out: Seq<RegOp>, fed: Seq<SsaOp>) -> bool {
    forall|s: Map<int, Term>, e: Map<u32, Term>| #[trigger]
        agree(alloc, s, e) ==> run_regs(out, s)[0] == run_slots(fed, e)[0]
}

/// Started from the contents `s`, the register tape `out` leaves in
/// register 0 what the slot tape `fed` leaves in slot 0 from some
/// environment.
pub open spec fn meets(out: Seq<RegOp>, fed: Seq<SsaOp>, s: Map<int, Term>) -> bool {
    exists|e: Map<u32, Term>| run_regs(out, s)[0] == (#[trigger] run_slots(fed, e))[0]
}

/// Whatever the registers and spill slots hold at the start, the register
/// tape `out` leaves in register 0 a result of the slot tape `fed`.
pub open spec fn implements(out: Seq<RegOp>, fed: Seq<SsaOp>) -> bool {
    forall|s: Map<int, Term>| #[trigger] meets(out, fed, s)
}

/// Registers lie below `n`, and no two slots
/// share a home.
spec fn tidy(n: int, alloc: Seq<Allocation>) -> bool {
    &&& forall|i: int|
        0 <= i < alloc.len() ==> match #[trigger] alloc[i] {
            Allocation::Register(r) => r < n,
            Allocation::Memory(_) => true,
            Allocation::Unassigned => true,
        }
    &&& forall|i: int, j: int|
        0 <= i < alloc.len() && 0 <= j < alloc.len() && i != j && (#[trigger] alloc[i])
            != Allocation::Unassigned ==> alloc[i] != #[trigger] alloc[j]
}

/// The tape `out` followed by a store of register `r` for each spill slot
/// given.
pub open spec fn with_stores(
    out: Seq<RegOp>,
    ma: Option<u32>,
    ra: u8,
    mb: Option<u32>,
    rb: u8,
) -> Seq<RegOp> {
    let first = match ma {
        Some(m) => out.push(RegOp::Store(m, ra)),
        None => out,
    };
    match mb {
        Some(m) => first.push(RegOp::Store(m, rb)),
        None => first,
    }
}

/// An operation whose result nothing reads can be left out.
proof fn lemma_skip(alloc: Seq<Allocation>, out: Seq<RegOp>, fed: Seq<SsaOp>, op: SsaOp)
    requires
        faithful(alloc, out, fed),
        alloc.len() <= u32::MAX,
        op.out() < alloc.len(),
        alloc[op.out() as int] == Allocation::Unassigned,
    ensures
        faithful(alloc, out, fed.push(op)),
{
    assert forall|s: Map<int, Term>, e: Map<u32, Term>| #[trigger]
        agree(alloc, s, e) implies run_regs(out, s)[0] == run_slots(fed.push(op), e)[0] by {
        lemma_run_slots_push(fed, op, e);
        let e0 = op.step(e);
        assert(agree(alloc, s, e0)) by {
            assert forall|i: int|
                0 <= i < alloc.len() && (#[trigger] alloc[i]) != Allocation::Unassigned implies s[alloc[i].home()]
                == e0[i as u32] by {
                assert(i as u32 != op.out());
            }
        }
    }
}

/// Moving a slot from register `r` to spill slot `m` is made good by a
/// load of `r` from `m`.
proof fn lemma_load(
    n: int,
    alloc: Seq<Allocation>,
    out: Seq<RegOp>,
    fed: Seq<SsaOp>,
    p: int,
    r: u8,
    m: u32,
)
    requires
        tidy(n, alloc),
        faithful(alloc, out, fed),
        0 <= p < alloc.len(),
        alloc[p] == Allocation::Register(r),
    ensures
        faithful(alloc.update(p, Allocation::Memory(m)), out.push(RegOp::Load(r, m)), fed),
{
    let alloc1 = alloc.update(p, Allocation::Memory(m));
    let op = RegOp::Load(r, m);
    assert forall|s: Map<int, Term>, e: Map<u32, Term>| #[trigger]
        agree(alloc1, s, e) implies run_regs(out.push(op), s)[0] == run_slots(fed, e)[0] by {
        lemma_run_regs_push(out, op, s);
        let s0 = op.step(s);
        assert(agree(alloc, s0, e)) by {
            assert forall|i: int|
                0 <= i < alloc.len() && (#[trigger] alloc[i]) != Allocation::Unassigned implies s0[alloc[i].home()]
                == e[i as u32] by {
                if i == p {
                    assert(alloc1[p] == Allocation::Memory(m));
                } else {
                    assert(alloc1[i] == alloc[i]);
                    assert(alloc[i] != alloc[p]);
                }
            }
        }
    }
}

/// Moving a slot from spill slot `m` to register `r` is made good by a
/// store of `r` to `m`.
proof fn lemma_store(
    n: int,
    alloc: Seq<Allocation>,
    out: Seq<RegOp>,
    fed: Seq<SsaOp>,
    o: int,
    r: u8,
    m: u32,
)
    requires
        tidy(n, alloc),
        faithful(alloc, out, fed),
        0 <= o < alloc.len(),
        alloc[o] == Allocation::Memory(m),
        r < n,
    ensures
        faithful(alloc.update(o, Allocation::Register(r)), out.push(RegOp::Store(m, r)), fed),
{
    let alloc1 = alloc.update(o, Allocation::Register(r));
    let op = RegOp::Store(m, r);
    assert forall|s: Map<int, Term>, e: Map<u32, Term>| #[trigger]
        agree(alloc1, s, e) implies run_regs(out.push(op), s)[0] == run_slots(fed, e)[0] by {
        lemma_run_regs_push(out, op, s);
        let s0 = op.step(s);
        assert(agree(alloc, s0, e)) by {
            assert forall|i: int|
                0 <= i < alloc.len() && (#[trigger] alloc[i]) != Allocation::Unassigned implies s0[alloc[i].home()]
                == e[i as u32] by {
                if i == o {
                    assert(alloc1[o] == Allocation::Register(r));
                } else {
                    assert(alloc1[i] == alloc[i]);
                    assert(alloc[i] != alloc[o]);
                }
            }
        }
    }
}

/// An operation whose result is expected in register `rx` is emitted over
/// the registers `ra` and `rb`; operands that were expected in spill slots
/// are stored there before it runs. From then on the operands are expected
/// in `ra` and `rb`.
proof fn lemma_emit(
    n: int,
    alloc0: Seq<Allocation>,
    alloc1: Seq<Allocation>,
    out0: Seq<RegOp>,
    fed0: Seq<SsaOp>,
    op: SsaOp,
    rx: u8,
    ra: u8,
    rb: u8,
    ma: Option<u32>,
    mb: Option<u32>,
)
    requires
        tidy(n, alloc0),
        faithful(alloc0, out0, fed0),
        alloc1.len() == alloc0.len(),
        alloc0.len() <= u32::MAX,
        op.out() < alloc0.len(),
        op.shape().arity() >= 1 ==> op.lhs() < alloc0.len(),
        op.shape().arity() == 2 ==> op.rhs() < alloc0.len(),
        alloc0[op.out() as int] == Allocation::Register(rx),
        forall|i: int|
            0 <= i < alloc0.len() && i != op.out() && !op.reads(i as u32) ==> #[trigger] alloc1[i]
                == alloc0[i],
        op.shape().arity() >= 1 ==> alloc1[op.lhs() as int] == Allocation::Register(ra),
        op.shape().arity() == 2 ==> alloc1[op.rhs() as int] == Allocation::Register(rb),
        op.shape().arity() >= 1 && op.lhs() != op.out() ==> match alloc0[op.lhs() as int] {
            Allocation::Register(r) => r == ra,
            Allocation::Memory(m) => ma == Some(m),
            Allocation::Unassigned => true,
        },
        op.shape().arity() == 2 && op.rhs() != op.out() ==> match alloc0[op.rhs() as int] {
            Allocation::Register(r) => r == rb,
            Allocation::Memory(m) => mb == Some(m) || (op.rhs() == op.lhs() && ma == Some(m)),
            Allocation::Unassigned => true,
        },
        ma matches Some(m) ==> op.shape().arity() >= 1 && op.lhs() != op.out() && alloc0[op.lhs() as int]
            == Allocation::Memory(m),
        mb matches Some(m) ==> op.shape().arity() == 2 && op.rhs() != op.out() && alloc0[op.rhs() as int]
            == Allocation::Memory(m),
        ra < n,
        rb < n,
    ensures
        faithful(
            alloc1,
            with_stores(out0.push(op.lower(rx, ra, rb)), ma, ra, mb, rb),
            fed0.push(op),
        ),
{
    let code = op.lower(rx, ra, rb);
    let mid = out0.push(code);
    let first = match ma {
        Some(m) => mid.push(RegOp::Store(m, ra)),
        None => mid,
    };
    let out1 = with_stores(mid, ma, ra, mb, rb);
    lemma_lower(op, rx, ra, rb);
    assert forall|s: Map<int, Term>, e: Map<u32, Term>| #[trigger]
        agree(alloc1, s, e) implies run_regs(out1, s)[0] == run_slots(fed0.push(op), e)[0] by {
        let sb = match mb {
            Some(m) => RegOp::Store(m, rb).step(s),
            None => s,
        };
        let sa = match ma {
            Some(m) => RegOp::Store(m, ra).step(sb),
            None => sb,
        };
        let s0 = code.step(sa);
        let e0 = op.step(e);
        assert(run_regs(out1, s) == run_regs(first, sb)) by {
            if let Some(m) = mb {
                lemma_run_regs_push(first, RegOp::Store(m, rb), s);
            }
        }
        assert(run_regs(first, sb) == run_regs(mid, sa)) by {
            if let Some(m) = ma {
                lemma_run_regs_push(mid, RegOp::Store(m, ra), sb);
            }
        }
        lemma_run_regs_push(out0, code, sa);
        lemma_run_slots_push(fed0, op, e);
        assert(op.shape().arity() >= 1 ==> sa[ra as int] == e[op.lhs()]) by {
            if op.shape().arity() >= 1 {
                assert(alloc1[op.lhs() as int] == Allocation::Register(ra));
            }
        }
        assert(op.shape().arity() == 2 ==> sa[rb as int] == e[op.rhs()]) by {
            if op.shape().arity() == 2 {
                assert(alloc1[op.rhs() as int] == Allocation::Register(rb));
            }
        }
        assert(s0[rx as int] == e0[op.out()]);
        assert(agree(alloc0, s0, e0)) by {
            assert forall|i: int|
                0 <= i < alloc0.len() && (#[trigger] alloc0[i]) != Allocation::Unassigned implies s0[alloc0[i].home()]
                == e0[i as u32] by {
                let o = op.out() as int;
                if i == o {
                } else {
                    assert(alloc0[i] != alloc0[o]);
                    if op.shape().arity() >= 1 && i == op.lhs() {
                        assert(alloc1[i] == Allocation::Register(ra));
                    } else if op.shape().arity() == 2 && i == op.rhs() {
                        assert(alloc1[i] == Allocation::Register(rb));
                        if op.shape().arity() >= 1 {
                            assert(alloc0[i] != alloc0[op.lhs() as int] || alloc0[op.lhs() as int]
                                == Allocation::Unassigned);
                        }
                    } else {
                        assert(alloc1[i] == alloc0[i]);
                        if op.shape().arity() >= 1 {
                            assert(alloc0[i] != alloc0[op.lhs() as int]);
                        }
                        if op.shape().arity() == 2 {
                            assert(alloc0[i] != alloc0[op.rhs() as int]);
                        }
                    }
                }
            }
        }
    }
}

/// Some slot is expected in spill slot `m`.
spec fn owned(alloc: Seq<Allocation>, m: int) -> bool {
    exists|i: int| 0 <= i < alloc.len() && #[trigger] alloc[i] == Allocation::Memory(m as u32)
}

/// If every number in a range is the spill slot of some slot, the range is
/// no longer than the table of slots.
proof fn lemma_owners(alloc: Seq<Allocation>, lo: int, hi: int)
    requires
        lo <= hi,
        forall|m: int| lo <= m < hi ==> #[trigger] owned(alloc, m),
        0 <= lo,
        hi <= u32::MAX,
    ensures
        hi - lo <= alloc.len(),
{
    let x = set_int_range(0, alloc.len() as int);
    let f = |i: int|
        match alloc[i] {
            Allocation::Memory(m) => m as int,
            _ => -1int,
        };
    let y = x.map(f);
    lemma_int_range(0, alloc.len() as int);
    lemma_int_range(lo, hi);
    lemma_map_size_bound(x, y, f);
    assert(set_int_range(lo, hi).subset_of(y)) by {
        assert forall|m: int| set_int_range(lo, hi).contains(m) implies y.contains(m) by {
            assert(owned(alloc, m));
            let i = choose|i: int|
                0 <= i < alloc.len() && #[trigger] alloc[i] == Allocation::Memory(m as u32);
            assert(x.contains(i));
            assert(f(i) == m);
        }
    }
    lemma_len_subset(set_int_range(lo, hi), y);
}

/// Spill slot `m` is either free for reuse or expected to hold a slot.
spec fn accounted(alloc: Seq<Allocation>, spare_m: Seq<u32>, m: int) -> bool {
    spare_m.contains(m as u32) || owned(alloc, m)
}

/// The tables of the allocator fit together: `regs` is the inverse of
/// `alloc` on registers, no spill slot holds two slots, the spare lists hold
/// what is free, and every register below `handed` and every spill slot
/// below `slots` has been handed out.
spec fn consistent(
    n: int,
    handed: int,
    slots: int,
    alloc: Seq<Allocation>,
    regs: Seq<Option<u32>>,
    spare_r: Seq<u8>,
    spare_m: Seq<u32>,
) -> bool {
    &&& regs.len() == n
    &&& 0 <= handed <= n
    &&& alloc.len() <= MAX_OPS
    &&& forall|r: int|
        0 <= r < n ==> match #[trigger] regs[r] {
            Some(i) => i < alloc.len() && alloc[i as int] == Allocation::Register(r as u8) && r
                < handed,
            None => true,
        }
    &&& forall|i: int|
        0 <= i < alloc.len() ==> match #[trigger] alloc[i] {
            Allocation::Register(r) => r < n && regs[r as int] == Some(i as u32),
            Allocation::Memory(m) => m < slots,
            Allocation::Unassigned => true,
        }
    &&& forall|i: int, j: int|
        0 <= i < alloc.len() && 0 <= j < alloc.len() && i != j && (#[trigger] alloc[i]) is Memory
            ==> alloc[i] != #[trigger] alloc[j]
    &&& forall|k: int|
        0 <= k < spare_r.len() ==> (#[trigger] spare_r[k]) < n && spare_r[k] < handed
            && regs[spare_r[k] as int] is None
    &&& forall|j: int, k: int| 0 <= j < k < spare_r.len() ==> spare_r[j] != spare_r[k]
    &&& forall|k: int|
        0 <= k < spare_m.len() ==> (#[trigger] spare_m[k]) < slots && !owned(
            alloc,
            spare_m[k] as int,
        )
    &&& forall|j: int, k: int| 0 <= j < k < spare_m.len() ==> spare_m[j] != spare_m[k]
    &&& forall|m: int| 0 <= m < slots ==> #[trigger] accounted(alloc, spare_m, m)
}

/// Consistent tables are tidy.
proof fn lemma_tidy(
    n: int,
    handed: int,
    slots: int,
    alloc: Seq<Allocation>,
    regs: Seq<Option<u32>>,
    spare_r: Seq<u8>,
    spare_m: Seq<u32>,
)
    requires
        consistent(n, handed, slots, alloc, regs, spare_r, spare_m),
    ensures
        tidy(n, alloc),
{
    assert forall|i: int, j: int|
        0 <= i < alloc.len() && 0 <= j < alloc.len() && i != j && (#[trigger] alloc[i])
            != Allocation::Unassigned implies alloc[i] != #[trigger] alloc[j] by {
        if let Allocation::Register(r) = alloc[i] {
            if alloc[j] == alloc[i] {
                assert(regs[r as int] == Some(i as u32));
                assert(regs[r as int] == Some(j as u32));
            }
        }
    }
}

/// Operations that stay within a number of slots stay within a larger one.
proof fn lemma_within_more(out: Seq<RegOp>, n: int, slots: int, more: int)
    requires
        slots <= more,
        forall|i: int| 0 <= i < out.len() ==> (#[trigger] out[i]).within(n, slots),
    ensures
        forall|i: int| 0 <= i < out.len() ==> (#[trigger] out[i]).within(n, more),
{
}

/// The table `alloc` after `slot` has been bound to register `reg`, if `go`.
pub open spec fn bound(alloc: Seq<Allocation>, go: bool, slot: u32, reg: u8) -> Seq<Allocation> {
    if go {
        alloc.update(slot as int, Allocation::Register(reg))
    } else {
        alloc
    }
}

/// The table `regs` after register `reg` has been given `slot`, if `go`.
pub open spec fn given(regs: Seq<Option<u32>>, go: bool, reg: u8, slot: u32) -> Seq<Option<u32>> {
    if go {
        regs.update(reg as int, Some(slot))
    } else {
        regs
    }
}

/// The list of spare spill slots after `m`, if any, has been freed.
pub open spec fn freed(spare_m: Seq<u32>, m: Option<u32>) -> Seq<u32> {
    match m {
        Some(x) => spare_m.push(x),
        None => spare_m,
    }
}

/// What is known when an operation is about to be emitted: its result is
/// expected in register `rx`; an operand that is not yet in a register
/// (`a_new`, `b_new`) takes `rx`, and the second such operand a free
/// register; `ma` and `mb` are the spill slots in which such operands were
/// expected.
spec fn ready(
    n: int,
    handed: int,
    alloc: Seq<Allocation>,
    regs: Seq<Option<u32>>,
    spare_r: Seq<u8>,
    o: u32,
    a: u32,
    b: u32,
    rx: u8,
    ra: u8,
    rb: u8,
    a_new: bool,
    b_new: bool,
    ma: Option<u32>,
    mb: Option<u32>,
) -> bool {
    &&& 2 <= n <= 255
    &&& o < alloc.len()
    &&& a < alloc.len()
    &&& b < alloc.len()
    &&& rx < n
    &&& ra < n
    &&& rb < n
    &&& alloc[o as int] == Allocation::Register(rx)
    &&& a_new ==> ra == rx && (a == o || !(alloc[a as int] is Register))
    &&& b_new ==> b != a && (b == o || !(alloc[b as int] is Register))
    &&& b_new && a_new ==> rb != rx && rb < handed && regs[rb as int] is None && !spare_r.contains(
        rb,
    )
    &&& b_new && !a_new ==> rb == rx
    &&& ma matches Some(m) ==> a_new && a != o && alloc[a as int] == Allocation::Memory(m)
    &&& mb matches Some(m) ==> b_new && b != o && alloc[b as int] == Allocation::Memory(m)
    &&& a_new && a != o && alloc[a as int] is Memory ==> ma is Some
    &&& b_new && b != o && alloc[b as int] is Memory ==> mb is Some
}

/// The slot table once the operation has been emitted.
pub open spec fn alloc_after(
    alloc: Seq<Allocation>,
    o: u32,
    a: u32,
    b: u32,
    ra: u8,
    rb: u8,
    a_new: bool,
    b_new: bool,
) -> Seq<Allocation> {
    bound(bound(alloc.update(o as int, Allocation::Unassigned), a_new, a, ra), b_new, b, rb)
}

/// The register table once the operation has been emitted.
pub open spec fn regs_after(
    regs: Seq<Option<u32>>,
    a: u32,
    b: u32,
    rx: u8,
    ra: u8,
    rb: u8,
    a_new: bool,
    b_new: bool,
) -> Seq<Option<u32>> {
    let r = given(given(regs, a_new, ra, a), b_new, rb, b);
    if !a_new && !b_new {
        r.update(rx as int, None)
    } else {
        r
    }
}

/// The tables of an allocator and what it has emitted.
pub struct Tables {
    /// Where emitted code expects each slot that 32 bits can number.
    pub alloc: Seq<Allocation>,
    /// The slot that each register is expected to hold.
    pub regs: Seq<Option<u32>>,
    /// The registers from the one used last to the one used longest ago.
    pub order: Seq<u8>,
    /// Registers that were in use and are free again, the last freed last.
    pub spare_r: Seq<u8>,
    /// Spill slots that were in use and are free again, the last freed last.
    pub spare_m: Seq<u32>,
    /// The number of registers that have been in use.
    pub handed: int,
    /// The number of spill slots that have been in use.
    pub slots: int,
    /// The operations emitted, the last to run first.
    pub out: Seq<RegOp>,
}

/// The number of slots that 32 bits can number.
pub open spec fn all_slots() -> nat {
    0x1_0000_0000
}

/// The table `alloc` with a place for every slot that 32 bits can number:
/// nothing reads the slots beyond the table.
pub open spec fn padded(alloc: Seq<Allocation>) -> Seq<Allocation> {
    Seq::new(
        all_slots(),
        |i: int|
            if i < alloc.len() {
                alloc[i]
            } else {
                Allocation::Unassigned
            },
    )
}

/// A change within the table is the same change in the padded table.
proof fn lemma_padded_update(alloc: Seq<Allocation>, i: int, v: Allocation)
    requires
        0 <= i < alloc.len() <= all_slots(),
    ensures
        padded(alloc.update(i, v)) == padded(alloc).update(i, v),
{
    assert(padded(alloc.update(i, v)) =~= padded(alloc).update(i, v));
}

/// Emitting an operation changes the padded table as it changes the table.
proof fn lemma_padded_after(
    alloc: Seq<Allocation>,
    o: u32,
    a: u32,
    b: u32,
    ra: u8,
    rb: u8,
    a_new: bool,
    b_new: bool,
)
    requires
        alloc.len() <= all_slots(),
        o < alloc.len(),
        a < alloc.len(),
        b < alloc.len(),
    ensures
        padded(alloc_after(alloc, o, a, b, ra, rb, a_new, b_new)) == alloc_after(
            padded(alloc),
            o,
            a,
            b,
            ra,
            rb,
            a_new,
            b_new,
        ),
{
    assert(padded(alloc_after(alloc, o, a, b, ra, rb, a_new, b_new)) =~= alloc_after(
        padded(alloc),
        o,
        a,
        b,
        ra,
        rb,
        a_new,
        b_new,
    ));
}

/// The tables before any operation has been taken, with `n` registers:
/// slot 0 is expected in register 0.
pub open spec fn fresh_tables(n: int) -> Tables {
    Tables {
        alloc: Seq::new(
            all_slots(),
            |i: int|
                if i == 0 {
                    Allocation::Register(0)
                } else {
                    Allocation::Unassigned
                },
        ),
        regs: Seq::new(
            n as nat,
            |r: int|
                if r == 0 {
                    Some(0u32)
                } else {
                    None
                },
        ),
        order: Seq::new(n as nat, |k: int| k as u8),
        spare_r: Seq::empty(),
        spare_m: Seq::empty(),
        handed: 1,
        slots: 0,
        out: Seq::empty(),
    }
}

/// The tables after a register that holds nothing has been found, and that
/// register: the spare register freed last; or else the next register that
/// has not been in use; or else the register used longest ago, `keep` left
/// alone, whose slot moves to a spill slot (the spare one freed last, or
/// else a new one) from which a load brings it back.
pub open spec fn took(t: Tables, n: int, keep: Option<u8>) -> (Tables, u8) {
    if t.spare_r.len() > 0 {
        let r = t.spare_r.last();
        (Tables { spare_r: t.spare_r.drop_last(), order: touched(t.order, r), ..t }, r)
    } else if t.handed < n {
        let r = t.handed as u8;
        (Tables { handed: t.handed + 1, order: touched(t.order, r), ..t }, r)
    } else {
        let kept = match keep {
            Some(k) => touched(t.order, k),
            None => t.order,
        };
        let r = kept.last();
        let order = touched(kept, r);
        match t.regs[r as int] {
            None => (Tables { order, ..t }, r),
            Some(p) => {
                let reuse = t.spare_m.len() > 0;
                let m = if reuse {
                    t.spare_m.last()
                } else {
                    t.slots as u32
                };
                (
                    Tables {
                        order,
                        spare_m: if reuse {
                            t.spare_m.drop_last()
                        } else {
                            t.spare_m
                        },
                        slots: if reuse {
                            t.slots
                        } else {
                            t.slots + 1
                        },
                        alloc: t.alloc.update(p as int, Allocation::Memory(m)),
                        regs: t.regs.update(r as int, None),
                        out: t.out.push(RegOp::Load(r, m)),
                        ..t
                    },
                    r,
                )
            },
        }
    }
}

/// The tables after the slot `o`, which emitted code reads, has been
/// brought to a register, and that register: the one in which it is
/// expected; or else a free one, with a store to the spill slot in which it
/// is expected.
pub open spec fn got(t: Tables, n: int, o: u32) -> (Tables, u8) {
    match t.alloc[o as int] {
        Allocation::Register(r) => (Tables { order: touched(t.order, r), ..t }, r),
        Allocation::Memory(m) => {
            let (t1, r) = took(t, n, None);
            (
                Tables {
                    out: t1.out.push(RegOp::Store(m, r)),
                    alloc: t1.alloc.update(o as int, Allocation::Register(r)),
                    regs: t1.regs.update(r as int, Some(o)),
                    spare_m: t1.spare_m.push(m),
                    ..t1
                },
                r,
            )
        },
        Allocation::Unassigned => (t, 0),
    }
}

/// The tables after the operation `op` has been taken.
///
/// An operation whose result nothing reads changes nothing. Otherwise the
/// result is brought to a register. An operand that is expected in a
/// register stays there; the first of the others takes over the register
/// of the result, and a second one gets a free register. Where no operand
/// takes the register of the result, it becomes spare. The operation is
/// emitted over these registers, followed by a store for each operand that
/// was expected in a spill slot, and the registers of the operands count
/// as used last.
pub open spec fn passed(t: Tables, n: int, op: SsaOp) -> Tables {
    let o = op.out();
    let a = op.lhs();
    let b = op.rhs();
    let arity = op.shape().arity();
    if t.alloc[o as int] is Unassigned {
        t
    } else {
        let (t1, rx) = got(t, n, o);
        let need_a = arity >= 1;
        let need_b = arity == 2 && b != a;
        let la = if need_a && a != o {
            t1.alloc[a as int]
        } else {
            Allocation::Unassigned
        };
        let lb = if need_b && b != o {
            t1.alloc[b as int]
        } else {
            Allocation::Unassigned
        };
        let a_new = need_a && !(la is Register);
        let b_new = need_b && !(lb is Register);
        let ra = match la {
            Allocation::Register(r) => r,
            _ => rx,
        };
        let (t2, rb) = if need_b {
            match lb {
                Allocation::Register(r) => (t1, r),
                _ => if a_new {
                    took(t1, n, Some(rx))
                } else {
                    (t1, rx)
                },
            }
        } else {
            (t1, ra)
        };
        let ma = match la {
            Allocation::Memory(m) => Some(m),
            _ => None,
        };
        let mb = match lb {
            Allocation::Memory(m) => Some(m),
            _ => None,
        };
        let first = if need_a {
            touched(t2.order, ra)
        } else {
            t2.order
        };
        Tables {
            alloc: alloc_after(t2.alloc, o, a, b, ra, rb, a_new, b_new),
            regs: regs_after(t2.regs, a, b, rx, ra, rb, a_new, b_new),
            order: if arity == 2 {
                touched(first, rb)
            } else {
                first
            },
            spare_r: if !a_new && !b_new {
                t2.spare_r.push(rx)
            } else {
                t2.spare_r
            },
            spare_m: freed(freed(t2.spare_m, ma), mb),
            out: with_stores(t2.out.push(op.lower(rx, ra, rb)), ma, ra, mb, rb),
            ..t2
        }
    }
}

/// The tables after the operations of `ssa` have been taken, the root
/// first, with `n` registers.
pub open spec fn allocating(ssa: Seq<SsaOp>, n: int) -> Tables
    decreases ssa.len(),
{
    if ssa.len() == 0 {
        fresh_tables(n)
    } else {
        passed(allocating(ssa.drop_last(), n), n, ssa.last())
    }
}

/// The register tape for the slot tape `ssa` with `n` registers.
pub open spec fn allocated(ssa: Seq<SsaOp>, n: int) -> Seq<RegOp> {
    allocating(ssa, n).out
}

/// Emitting an operation keeps the slot and register tables inverse to
/// each other.
#[verifier::spinoff_prover]
proof fn lemma_commit_tables(
    n: int,
    handed: int,
    slots: int,
    alloc: Seq<Allocation>,
    regs: Seq<Option<u32>>,
    spare_r: Seq<u8>,
    spare_m: Seq<u32>,
    o: u32,
    a: u32,
    b: u32,
    rx: u8,
    ra: u8,
    rb: u8,
    a_new: bool,
    b_new: bool,
    ma: Option<u32>,
    mb: Option<u32>,
)
    requires
        consistent(n, handed, slots, alloc, regs, spare_r, spare_m),
        ready(n, handed, alloc, regs, spare_r, o, a, b, rx, ra, rb, a_new, b_new, ma, mb),
    ensures
        ({
            let alloc1 = alloc_after(alloc, o, a, b, ra, rb, a_new, b_new);
            let regs1 = regs_after(regs, a, b, rx, ra, rb, a_new, b_new);
            &&& regs1.len() == n
            &&& alloc1.len() == alloc.len()
            &&& forall|r: int|
                0 <= r < n ==> match #[trigger] regs1[r] {
                    Some(i) => i < alloc1.len() && alloc1[i as int] == Allocation::Register(
                        r as u8,
                    ) && r < handed,
                    None => true,
                }
            &&& forall|i: int|
                0 <= i < alloc1.len() ==> match #[trigger] alloc1[i] {
                    Allocation::Register(r) => r < n && regs1[r as int] == Some(i as u32),
                    Allocation::Memory(m) => m < slots && alloc[i] == alloc1[i],
                    Allocation::Unassigned => true,
                }
            &&& forall|i: int, j: int|
                0 <= i < alloc1.len() && 0 <= j < alloc1.len() && i != j && (
                #[trigger] alloc1[i]) is Memory ==> alloc1[i] != #[trigger] alloc1[j]
        }),
{
    let alloc1 = alloc_after(alloc, o, a, b, ra, rb, a_new, b_new);
    let regs1 = regs_after(regs, a, b, rx, ra, rb, a_new, b_new);
    assert(regs[rx as int] == Some(o));
    assert forall|i: int| 0 <= i < alloc1.len() implies match #[trigger] alloc1[i] {
        Allocation::Register(r) => r < n && regs1[r as int] == Some(i as u32),
        Allocation::Memory(m) => m < slots && alloc[i] == alloc1[i],
        Allocation::Unassigned => true,
    } by {
        if b_new && i == b {
        } else if a_new && i == a {
        } else if i == o {
        } else {
            assert(alloc1[i] == alloc[i]);
            if let Allocation::Register(r) = alloc[i] {
                assert(regs[r as int] == Some(i as u32));
            }
        }
    }
    assert forall|r: int| 0 <= r < n implies match #[trigger] regs1[r] {
        Some(i) => i < alloc1.len() && alloc1[i as int] == Allocation::Register(r as u8) && r
            < handed,
        None => true,
    } by {
        if r == rx {
        } else if b_new && r == rb {
        } else {
            assert(regs1[r] == regs[r]);
            if let Some(i) = regs[r] {
                assert(alloc[i as int] == Allocation::Register(r as u8));
                assert(alloc1[i as int] == alloc[i as int]);
            }
        }
    }
    assert forall|i: int, j: int|
        0 <= i < alloc1.len() && 0 <= j < alloc1.len() && i != j && (#[trigger] alloc1[i])
            is Memory implies alloc1[i] != #[trigger] alloc1[j] by {
        assert(alloc1[i] == alloc[i]);
        if alloc1[j] is Memory {
            assert(alloc1[j] == alloc[j]);
        }
    }
}

/// Emitting an operation keeps the spare lists in order.
#[verifier::spinoff_prover]
proof fn lemma_commit_spares(
    n: int,
    handed: int,
    slots: int,
    alloc: Seq<Allocation>,
    regs: Seq<Option<u32>>,
    spare_r: Seq<u8>,
    spare_m: Seq<u32>,
    o: u32,
    a: u32,
    b: u32,
    rx: u8,
    ra: u8,
    rb: u8,
    a_new: bool,
    b_new: bool,
    ma: Option<u32>,
    mb: Option<u32>,
)
    requires
        consistent(n, handed, slots, alloc, regs, spare_r, spare_m),
        ready(n, handed, alloc, regs, spare_r, o, a, b, rx, ra, rb, a_new, b_new, ma, mb),
    ensures
        consistent(
            n,
            handed,
            slots,
            alloc_after(alloc, o, a, b, ra, rb, a_new, b_new),
            regs_after(regs, a, b, rx, ra, rb, a_new, b_new),
            if !a_new && !b_new {
                spare_r.push(rx)
            } else {
                spare_r
            },
            freed(freed(spare_m, ma), mb),
        ),
{
    let alloc1 = alloc_after(alloc, o, a, b, ra, rb, a_new, b_new);
    let regs1 = regs_after(regs, a, b, rx, ra, rb, a_new, b_new);
    let spare_r1 = if !a_new && !b_new {
        spare_r.push(rx)
    } else {
        spare_r
    };
    let spare_m1 = freed(freed(spare_m, ma), mb);
    lemma_commit_tables(n, handed, slots, alloc, regs, spare_r, spare_m, o, a, b, rx, ra, rb, a_new, b_new, ma, mb);
    assert(regs[rx as int] == Some(o));
    assert forall|k: int| 0 <= k < spare_r1.len() implies (#[trigger] spare_r1[k]) < n
        && spare_r1[k] < handed && regs1[spare_r1[k] as int] is None by {
        if k < spare_r.len() {
            assert(spare_r1[k] == spare_r[k]);
            assert(regs[spare_r[k] as int] is None);
            assert(spare_r.contains(spare_r[k]));
        }
    }
    assert forall|j: int, k: int| 0 <= j < k < spare_r1.len() implies spare_r1[j]
        != spare_r1[k] by {
        assert(spare_r1[j] == spare_r[j]);
        assert(regs[spare_r[j] as int] is None);
        if k < spare_r.len() {
            assert(spare_r1[k] == spare_r[k]);
        }
    }
    assert forall|x: u32| #[trigger] spare_m1.contains(x) implies spare_m.contains(x) || ma
        == Some(x) || mb == Some(x) by {
        let k = choose|k: int| 0 <= k < spare_m1.len() && spare_m1[k] == x;
        if k < spare_m.len() {
            assert(spare_m[k] == x);
        }
    }
    assert forall|x: u32| spare_m.contains(x) || ma == Some(x) || mb == Some(x) implies x
        < slots && !owned(alloc1, x as int) && owned(alloc, x as int) == !spare_m.contains(x) by {
        if spare_m.contains(x) {
            let k = choose|k: int| 0 <= k < spare_m.len() && spare_m[k] == x;
            assert(!owned(alloc, spare_m[k] as int));
        } else if ma == Some(x) {
            assert(alloc[a as int] == Allocation::Memory(x));
        } else {
            assert(alloc[b as int] == Allocation::Memory(x));
        }
        if owned(alloc1, x as int) {
            let i = choose|i: int|
                0 <= i < alloc1.len() && #[trigger] alloc1[i] == Allocation::Memory(x);
            assert(alloc[i] == alloc1[i]);
            if ma == Some(x) {
                assert(alloc[a as int] == alloc[i]);
            }
            if mb == Some(x) {
                assert(alloc[b as int] == alloc[i]);
            }
        }
    }
    assert forall|k: int| 0 <= k < spare_m1.len() implies (#[trigger] spare_m1[k]) < slots
        && !owned(alloc1, spare_m1[k] as int) by {
        assert(spare_m1.contains(spare_m1[k]));
    }
    assert forall|j: int, k: int| 0 <= j < k < spare_m1.len() implies spare_m1[j]
        != spare_m1[k] by {
        let u = spare_m.len() as int;
        if k < u {
            assert(spare_m1[j] == spare_m[j] && spare_m1[k] == spare_m[k]);
        } else if j < u {
            assert(spare_m1[j] == spare_m[j]);
            assert(spare_m.contains(spare_m[j]));
            assert(ma == Some(spare_m1[k]) || mb == Some(spare_m1[k]));
        } else {
            assert(ma == Some(spare_m1[j]) && mb == Some(spare_m1[k]));
            assert(alloc[a as int] != alloc[b as int]);
        }
    }
    assert forall|x: int| 0 <= x < slots implies #[trigger] accounted(alloc1, spare_m1, x) by {
        assert(accounted(alloc, spare_m, x));
        if owned(alloc, x) {
            let i = choose|i: int|
                0 <= i < alloc.len() && #[trigger] alloc[i] == Allocation::Memory(x as u32);
            if alloc1[i] == alloc[i] {
            } else if a_new && i == a {
                assert(ma == Some(x as u32));
                assert(spare_m1[spare_m.len() as int] == x as u32);
            } else {
                assert(b_new && i == b);
                assert(mb == Some(x as u32));
                assert(spare_m1[spare_m1.len() - 1] == x as u32);
            }
        } else {
            let k = choose|k: int| 0 <= k < spare_m.len() && spare_m[k] == x as u32;
            assert(spare_m1[k] == x as u32);
        }
    }
}

/// Every register that has been in use so far, but `skip`, holds a slot or
/// is spare.
#[verifier::opaque]
spec fn snug(handed: int, regs: Seq<Option<u32>>, spare_r: Seq<u8>, skip: int) -> bool {
    forall|r: int|
        0 <= r < handed && r < regs.len() && r != skip ==> (#[trigger] regs[r]) is Some
            || spare_r.contains(r as u8)
}

/// Emitting an operation leaves no register in between: each holds a slot
/// or is spare.
proof fn lemma_commit_snug(
    n: int,
    handed: int,
    regs: Seq<Option<u32>>,
    spare_r: Seq<u8>,
    a: u32,
    b: u32,
    rx: u8,
    ra: u8,
    rb: u8,
    a_new: bool,
    b_new: bool,
)
    requires
        regs.len() == n,
        n <= 255,
        rx < n,
        ra < n,
        rb < n,
        a_new ==> ra == rx,
        b_new && !a_new ==> rb == rx,
        snug(
            handed,
            regs,
            spare_r,
            if a_new && b_new {
                rb as int
            } else {
                -1
            },
        ),
    ensures
        snug(
            handed,
            regs_after(regs, a, b, rx, ra, rb, a_new, b_new),
            if !a_new && !b_new {
                spare_r.push(rx)
            } else {
                spare_r
            },
            -1,
        ),
{
    let regs1 = regs_after(regs, a, b, rx, ra, rb, a_new, b_new);
    let spare1 = if !a_new && !b_new {
        spare_r.push(rx)
    } else {
        spare_r
    };
    reveal(snug);
    assert forall|r: int| 0 <= r < handed && r < regs1.len() implies (#[trigger] regs1[r]) is Some
        || spare1.contains(r as u8) by {
        if r == rx {
            if !a_new && !b_new {
                assert(spare1[spare_r.len() as int] == rx);
            }
        } else if b_new && r == rb {
        } else {
            assert(regs1[r] == regs[r]);
            if regs[r] is None {
                let k = choose|k: int| 0 <= k < spare_r.len() && spare_r[k] == r as u8;
                assert(spare1[k] == r as u8);
            }
        }
    }
}

/// Every register but `r` holds a slot, and some slot is expected in a
/// spill slot.
#[verifier::opaque]
spec fn crowded(n: int, alloc: Seq<Allocation>, regs: Seq<Option<u32>>, r: int) -> bool {
    &&& forall|q: int| 0 <= q < n && q != r ==> (#[trigger] regs[q]) is Some
    &&& exists|p: int| 0 <= p < alloc.len() && (#[trigger] alloc[p]) is Memory
}

/// The slots that emitted code reads and whose operation is still to come.
spec fn busy_of(alloc: Seq<Allocation>) -> Set<int> {
    Set::new(|s: int| 0 <= s < alloc.len() && alloc[s] != Allocation::Unassigned)
}

/// With a slot in every register and one more in a spill slot, emitted code
/// reads more slots than there are registers.
proof fn lemma_crowded(
    n: int,
    handed: int,
    slots: int,
    alloc: Seq<Allocation>,
    regs: Seq<Option<u32>>,
    spare_r: Seq<u8>,
    spare_m: Seq<u32>,
    p: int,
)
    requires
        consistent(n, handed, slots, alloc, regs, spare_r, spare_m),
        n <= 255,
        forall|r: int| 0 <= r < n ==> (#[trigger] regs[r]) is Some,
        0 <= p < alloc.len(),
        alloc[p] is Memory,
    ensures
        busy_of(alloc).finite(),
        busy_of(alloc).len() > n,
{
    let x = busy_of(alloc);
    let f = |i: int|
        match alloc[i] {
            Allocation::Register(r) => r as int,
            Allocation::Memory(_) => n,
            Allocation::Unassigned => -1int,
        };
    let y = x.map(f);
    lemma_int_range(0, alloc.len() as int);
    lemma_int_range(0, n + 1);
    assert(x.subset_of(set_int_range(0, alloc.len() as int)));
    lemma_len_subset(x, set_int_range(0, alloc.len() as int));
    lemma_map_size_bound(x, y, f);
    assert(set_int_range(0, n + 1).subset_of(y)) by {
        assert forall|m: int| set_int_range(0, n + 1).contains(m) implies y.contains(m) by {
            if m < n {
                assert(regs[m] is Some);
                let i = regs[m].unwrap() as int;
                assert(alloc[i] == Allocation::Register(m as u8));
                assert(x.contains(i));
                assert(f(i) == m);
            } else {
                assert(x.contains(p));
                assert(f(p) == m);
            }
        }
    }
    lemma_len_subset(set_int_range(0, n + 1), y);
}

/// Where an operation takes the register of a slot that had to move to a
/// spill slot, emitted code reads more slots afterwards than there are
/// registers.
proof fn lemma_commit_crowded(
    n: int,
    handed: int,
    slots: int,
    alloc: Seq<Allocation>,
    regs: Seq<Option<u32>>,
    spare_r: Seq<u8>,
    spare_m: Seq<u32>,
    o: u32,
    a: u32,
    b: u32,
    rx: u8,
    ra: u8,
    rb: u8,
    a_new: bool,
    b_new: bool,
    ma: Option<u32>,
    mb: Option<u32>,
)
    requires
        consistent(n, handed, slots, alloc, regs, spare_r, spare_m),
        ready(n, handed, alloc, regs, spare_r, o, a, b, rx, ra, rb, a_new, b_new, ma, mb),
        a_new && b_new,
        ma is None && mb is None,
        crowded(n, alloc, regs, rb as int),
    ensures
        busy_of(alloc_after(alloc, o, a, b, ra, rb, a_new, b_new)).finite(),
        busy_of(alloc_after(alloc, o, a, b, ra, rb, a_new, b_new)).len() > n,
{
    reveal(crowded);
    let alloc1 = alloc_after(alloc, o, a, b, ra, rb, a_new, b_new);
    let regs1 = regs_after(regs, a, b, rx, ra, rb, a_new, b_new);
    lemma_commit_spares(n, handed, slots, alloc, regs, spare_r, spare_m, o, a, b, rx, ra, rb, a_new, b_new, ma, mb);
    let p = choose|p: int| 0 <= p < alloc.len() && (#[trigger] alloc[p]) is Memory;
    assert(alloc1[p] == alloc[p]);
    assert forall|q: int| 0 <= q < n implies (#[trigger] regs1[q]) is Some by {
        if q != rb && q != rx {
            assert(regs[q] is Some);
        }
    }
    lemma_crowded(n, handed, slots, alloc1, regs1, spare_r, freed(freed(spare_m, ma), mb), p);
}

/// Walks a single-assignment tape from its root and assigns each slot a
/// register or, where the `N` registers do not suffice, a spill slot.
pub struct RegisterAllocator<const N: usize> {
    /// Where the code emitted so far expects each slot
    allocations: Vec<Allocation>,
    /// The slot, if any, that each register is expected to hold
    registers: Vec<Option<u32>>,
    /// The registers in order of use
    register_lru: Lru,
    /// Registers that were handed out and are free again
    spare_registers: Vec<u8>,
    /// Spill slots that were handed out and are free again
    spare_memory: Vec<u32>,
    /// The register tape, growing from its last operation to its first
    out: Tape,
    /// The number of registers handed out
    handed: u8,
    fed: Ghost<Seq<SsaOp>>,
    kept: Ghost<Seq<SsaOp>>,
}

impl<const N: usize> RegisterAllocator<N> {
    /// The number of slots that the allocator has room for.
    pub closed spec fn size(&self) -> nat {
        self.allocations@.len()
    }

    /// The operations taken so far, in the order in which they came.
    pub closed spec fn taken(&self) -> Seq<SsaOp> {
        self.fed@
    }

    /// The register operations emitted so far.
    pub closed spec fn emitted(&self) -> Seq<RegOp> {
        self.out@
    }

    /// The operations taken so far without those that were left out
    /// because nothing read their result.
    pub closed spec fn kept(&self) -> Seq<SsaOp> {
        self.kept@
    }

    /// The tables as they stand.
    pub closed spec fn tables(&self) -> Tables {
        Tables {
            alloc: padded(self.allocations@),
            regs: self.registers@,
            order: self.register_lru@,
            spare_r: self.spare_registers@,
            spare_m: self.spare_memory@,
            handed: self.handed as int,
            slots: self.out.slots() as int,
            out: self.out@,
        }
    }

    /// The number of registers that have been in use so far.
    pub closed spec fn handed(&self) -> nat {
        self.handed as nat
    }

    /// The number of spill slots that the emitted operations use.
    pub closed spec fn slots(&self) -> nat {
        self.out.slots() as nat
    }

    /// Emitted code reads slot `s`, and the operation that writes it has
    /// not been taken yet.
    pub closed spec fn assigned(&self, s: u32) -> bool {
        s < self.allocations@.len() && self.allocations@[s as int] != Allocation::Unassigned
    }

    /// The slots that emitted code reads and whose operations have not
    /// been taken yet.
    pub open spec fn busy(&self) -> Set<int> {
        Set::new(|s: int| 0 <= s < self.size() && self.assigned(s as u32))
    }

    /// Every register in use so far, but `skip`, holds a slot or is spare.
    spec fn snug_but(&self, skip: int) -> bool {
        snug(self.handed as int, self.registers@, self.spare_registers@, skip)
    }

    /// Every register but `r` holds a slot, and some slot is expected in a
    /// spill slot.
    spec fn crowded_but(&self, r: u8) -> bool {
        crowded(N as int, self.allocations@, self.registers@, r as int)
    }

    /// The slots that are busy are those that the table of slots assigns.
    proof fn lemma_busy(&self)
        requires
            self.allocations@.len() <= u32::MAX,
        ensures
            self.busy() == busy_of(self.allocations@),
    {
        assert(self.busy() =~= busy_of(self.allocations@));
    }

    /// The allocator is ready to take an operation: its tables fit together,
    /// what it has emitted computes what it has taken, and no register is
    /// in between.
    pub closed spec fn inv(&self) -> bool {
        self.sound() && self.snug_but(-1)
    }

    /// The tables fit together, and what has been emitted computes what
    /// has been taken.
    spec fn sound(&self) -> bool {
        &&& 2 <= N <= 255
        &&& consistent(
            N as int,
            self.handed as int,
            self.out.slots() as int,
            self.allocations@,
            self.registers@,
            self.spare_registers@,
            self.spare_memory@,
        )
        &&& self.register_lru.wf()
        &&& self.register_lru@.len() == N
        &&& self.out.limit() == N
        &&& self.out.within_limits()
        &&& self.allocations@.len() > 0 ==> faithful(self.allocations@, self.out@, self.fed@)
        &&& self.allocations@.len() == 0 ==> self.out@.len() == 0 && self.fed@.len() == 0
        &&& skeleton(self.out@) == shapes(self.kept@)
    }

    /// An allocator without room for any slot: it has to be reset before
    /// it can take an operation.
    pub fn empty() -> (r: Self)
        ensures
            r.size() == 0,
            r.taken() == Seq::<SsaOp>::empty(),
            r.kept() == Seq::<SsaOp>::empty(),
            r.emitted() == Seq::<RegOp>::empty(),
    {
        RegisterAllocator {
            allocations: Vec::new(),
            registers: Vec::new(),
            register_lru: Lru::new(1),
            spare_registers: Vec::new(),
            spare_memory: Vec::new(),
            out: Tape::default(),
            handed: 0,
            fed: Ghost(Seq::empty()),
            kept: Ghost(Seq::empty()),
        }
    }

    /// An allocator with room for `size` slots, of which slot 0 is expected
    /// in register 0.
    pub fn new(size: usize) -> (r: Self)
        requires
            2 <= N <= 255,
            size <= MAX_OPS,
        ensures
            r.inv(),
            r.size() == size,
            r.taken() == Seq::<SsaOp>::empty(),
            r.kept() == Seq::<SsaOp>::empty(),
            r.emitted() == Seq::<RegOp>::empty(),
            r.slots() == 0,
            r.handed() <= 1,
            size > 0 ==> r.tables() == fresh_tables(N as int),
            forall|s: u32| r.assigned(s) == (s == 0 && size > 0),
    {
        let mut r = Self::empty();
        r.reset(size, Tape::new(0));
        r
    }

    /// Starts over with room for `size` slots, of which slot 0 is expected
    /// in register 0, and with `tape` as the storage of what will be
    /// emitted.
    pub fn reset(&mut self, size: usize, tape: Tape)
        requires
            2 <= N <= 255,
            size <= MAX_OPS,
        ensures
            final(self).inv(),
            final(self).size() == size,
            final(self).taken() == Seq::<SsaOp>::empty(),
            final(self).kept() == Seq::<SsaOp>::empty(),
            final(self).emitted() == Seq::<RegOp>::empty(),
            final(self).slots() == 0,
            final(self).handed() <= 1,
            size > 0 ==> final(self).tables() == fresh_tables(N as int),
            forall|s: u32| final(self).assigned(s) == (s == 0 && size > 0),
    {
        self.allocations.clear();
        self.allocations.resize(size, Allocation::Unassigned);
        self.registers.clear();
        self.registers.resize(N, None);
        self.register_lru.reset(N);
        self.spare_registers.clear();
        self.spare_memory.clear();
        self.out = tape;
        self.out.reset(N as u8);
        self.fed = Ghost(Seq::empty());
        self.kept = Ghost(Seq::empty());
        self.handed = 0;
        if size > 0 {
            self.allocations[0] = Allocation::Register(0);
            self.registers[0] = Some(0);
            self.handed = 1;
        }
        proof {
            let alloc = self.allocations@;
            if size > 0 {
                let t = fresh_tables(N as int);
                assert(padded(self.allocations@) =~= t.alloc);
                assert(self.registers@ =~= t.regs);
                assert(self.register_lru@ =~= t.order);
            }
            reveal(snug);
            assert(shapes(self.kept@) =~= skeleton(self.out@));
            assert forall|m: int| 0 <= m < 0 implies #[trigger] accounted(
                alloc,
                self.spare_memory@,
                m,
            ) by {}
            if size > 0 {
                assert forall|s: Map<int, Term>, e: Map<u32, Term>| #[trigger]
                    agree(alloc, s, e) implies run_regs(self.out@, s)[0] == run_slots(
                    self.fed@,
                    e,
                )[0] by {
                    assert(alloc[0] == Allocation::Register(0));
                }
            }
        }
    }

    /// Hands over the tape that has been emitted. The allocator has to be
    /// reset before it can take another operation.
    pub fn finalize(&mut self) -> (r: Tape)
        requires
            old(self).inv(),
        ensures
            r@ == old(self).emitted(),
            r@ == old(self).tables().out,
            r.limit() == N,
            r.slots() == old(self).slots(),
            r.slots() == old(self).tables().slots,
            r.within_limits(),
            implements(r@, old(self).taken()),
            skeleton(r@) == shapes(old(self).kept()),
            final(self).size() == old(self).size(),
    {
        let mut r = Tape::default();
        std::mem::swap(&mut self.out, &mut r);
        proof {
            let alloc = self.allocations@;
            assert forall|s: Map<int, Term>| #[trigger] meets(r@, self.fed@, s) by {
                let e = Map::<u32, Term>::total(
                    |i: u32|
                        if i < alloc.len() {
                            s[alloc[i as int].home()]
                        } else {
                            s[0]
                        },
                );
                if alloc.len() > 0 {
                    assert(agree(alloc, s, e));
                } else {
                    assert(r@ =~= Seq::<RegOp>::empty());
                    assert(self.fed@ =~= Seq::<SsaOp>::empty());
                }
                assert(run_regs(r@, s)[0] == run_slots(self.fed@, e)[0]);
            }
            assert(self.fed@ == old(self).fed@);
            assert(r@ == old(self).out@);
            assert(implements(r@, self.fed@));
        }
        r
    }

    /// Hands out a register that holds nothing, making room by moving the
    /// slot of the register used longest ago to a spill slot if need be. The
    /// register `keep` is left alone.
    fn take_register(&mut self, keep: Option<u8>) -> (r: u8)
        requires
            old(self).sound(),
            keep matches Some(k) ==> k < N && old(self).registers@[k as int] is Some,
        ensures
            final(self).sound(),
            (final(self).tables(), r) == took(old(self).tables(), N as int, keep),
            old(self).snug_but(-1) ==> final(self).snug_but(r as int),
            old(self).snug_but(-1) && final(self).out.slots() != old(self).out.slots()
                ==> final(self).crowded_but(r),
            final(self).fed@ == old(self).fed@,
            final(self).kept@ == old(self).kept@,
            final(self).allocations@.len() == old(self).allocations@.len(),
            r < N,
            r < final(self).handed,
            old(self).handed <= final(self).handed <= old(self).handed + 1,
            final(self).out.slots() >= old(self).out.slots(),
            final(self).out.slots() == old(self).out.slots() || old(self).handed == N,
            final(self).registers@[r as int] is None,
            !final(self).spare_registers@.contains(r),
            keep matches Some(k) ==> r != k,
            forall|i: int|
                0 <= i < old(self).allocations@.len() ==> (#[trigger] final(self).allocations@[i])
                    == old(self).allocations@[i] || (old(self).allocations@[i]
                    == Allocation::Register(r) && final(self).allocations@[i] is Memory),
    {
        if let Some(r) = self.spare_registers.pop() {
            self.register_lru.poke(r);
            proof {
                reveal(snug);
                if old(self).snug_but(-1) {
                    assert forall|q: int|
                        0 <= q < self.handed && q < self.registers@.len() && q != r implies (
                    #[trigger] self.registers@[q]) is Some || self.spare_registers@.contains(
                        q as u8,
                    ) by {
                        if !(old(self).registers@[q] is Some) {
                            let k = choose|k: int|
                                0 <= k < old(self).spare_registers@.len() && old(
                                    self,
                                ).spare_registers@[k] == q as u8;
                            assert(self.spare_registers@[k] == q as u8);
                        }
                    }
                }
            }
            return r;
        }
        if (self.handed as usize) < N {
            let r: u8 = self.handed;
            self.handed = r + 1;
            self.register_lru.poke(r);
            proof {
                reveal(snug);
            }
            return r;
        }
        if let Some(k) = keep {
            self.register_lru.poke(k);
        }
        proof {
            self.register_lru.lemma_permutation();
        }
        let r: u8 = self.register_lru.pop();
        proof {
            reveal(snug);
        }
        match self.registers[r as usize] {
            None => {},
            Some(p) => {
                let ghost alloc0 = self.allocations@;
                let ghost slots0 = self.out.slots() as int;
                let m: u32 = match self.spare_memory.pop() {
                    Some(m) => m,
                    None => {
                        proof {
                            assert forall|m: int| 0 <= m < slots0 implies #[trigger] owned(
                                alloc0,
                                m,
                            ) by {
                                assert(accounted(alloc0, old(self).spare_memory@, m));
                            }
                            lemma_owners(alloc0, 0, slots0);
                        }
                        let m: u32 = self.out.take_slot();
                        proof {
                            lemma_within_more(self.out@, N as int, slots0, self.out.slots() as int);
                        }
                        m
                    },
                };
                proof {
                    lemma_tidy(
                        N as int,
                        self.handed as int,
                        slots0,
                        alloc0,
                        old(self).registers@,
                        old(self).spare_registers@,
                        old(self).spare_memory@,
                    );
                    if alloc0.len() > 0 {
                        lemma_load(N as int, alloc0, self.out@, self.fed@, p as int, r, m);
                    }
                }
                proof {
                    lemma_skeleton_push(self.out@, RegOp::Load(r, m));
                }
                self.allocations[p as usize] = Allocation::Memory(m);
                self.registers[r as usize] = None;
                self.out.push(RegOp::Load(r, m));
                proof {
                    let alloc1 = self.allocations@;
                    let spare1 = self.spare_memory@;
                    lemma_padded_update(alloc0, p as int, Allocation::Memory(m));
                    assert(alloc1[p as int] == Allocation::Memory(m));
                    if old(self).snug_but(-1) {
                        reveal(crowded);
                        assert forall|q: int| 0 <= q < N && q != r implies (
                        #[trigger] self.registers@[q]) is Some by {
                            assert(old(self).registers@[q] is Some || old(
                                self,
                            ).spare_registers@.contains(q as u8));
                        }
                        assert(self.allocations@[p as int] is Memory);
                    }
                    assert forall|k: int| 0 <= k < spare1.len() implies !owned(
                        alloc1,
                        #[trigger] spare1[k] as int,
                    ) by {
                        assert(spare1[k] == old(self).spare_memory@[k]);
                        assert(!owned(alloc0, spare1[k] as int));
                    }
                    assert forall|x: int| 0 <= x < self.out.slots() implies #[trigger] accounted(
                        alloc1,
                        spare1,
                        x,
                    ) by {
                        if x == m {
                            assert(owned(alloc1, x));
                        } else {
                            assert(accounted(alloc0, old(self).spare_memory@, x));
                            if owned(alloc0, x) {
                                let i = choose|i: int|
                                    0 <= i < alloc0.len() && #[trigger] alloc0[i]
                                        == Allocation::Memory(x as u32);
                                assert(alloc1[i] == Allocation::Memory(x as u32));
                            } else {
                                let k = choose|k: int|
                                    0 <= k < old(self).spare_memory@.len() && old(
                                        self,
                                    ).spare_memory@[k] == x as u32;
                                assert(spare1[k] == x as u32);
                            }
                        }
                    }
                }
            },
        }
        r
    }

    /// Makes sure that the slot `o`, which emitted code reads, is expected
    /// in a register, and returns that register.
    fn get_out_reg(&mut self, o: u32) -> (r: u8)
        requires
            old(self).inv(),
            o < old(self).allocations@.len(),
            old(self).allocations@[o as int] != Allocation::Unassigned,
        ensures
            final(self).inv(),
            final(self).fed@ == old(self).fed@,
            final(self).kept@ == old(self).kept@,
            final(self).allocations@.len() == old(self).allocations@.len(),
            r < N,
            (final(self).tables(), r) == got(old(self).tables(), N as int, o),
            final(self).out.slots() >= old(self).out.slots(),
            old(self).out.slots() == 0 ==> final(self).out.slots() == 0 && final(self).handed == old(
                self,
            ).handed,
            final(self).allocations@[o as int] == Allocation::Register(r),
            forall|i: int|
                0 <= i < old(self).allocations@.len() && i != o ==> (
                #[trigger] final(self).allocations@[i]) == old(self).allocations@[i] || (old(
                    self,
                ).allocations@[i] is Register && final(self).allocations@[i] is Memory),
    {
        match self.allocations[o as usize] {
            Allocation::Register(r) => {
                self.register_lru.poke(r);
                r
            },
            Allocation::Memory(m) => {
                let r: u8 = self.take_register(None);
                let ghost alloc0 = self.allocations@;
                let ghost spare0 = self.spare_memory@;
                let ghost regs0 = self.registers@;
                proof {
                    lemma_tidy(
                        N as int,
                        self.handed as int,
                        self.out.slots() as int,
                        alloc0,
                        self.registers@,
                        self.spare_registers@,
                        spare0,
                    );
                    lemma_store(N as int, alloc0, self.out@, self.fed@, o as int, r, m);
                    lemma_skeleton_push(self.out@, RegOp::Store(m, r));
                }
                self.out.push(RegOp::Store(m, r));
                self.allocations[o as usize] = Allocation::Register(r);
                self.registers[r as usize] = Some(o);
                self.spare_memory.push(m);
                proof {
                    let alloc1 = self.allocations@;
                    let spare1 = self.spare_memory@;
                    lemma_padded_update(alloc0, o as int, Allocation::Register(r));
                    assert(self.snug_but(-1)) by {
                        reveal(snug);
                        assert forall|q: int|
                            0 <= q < self.handed && q < self.registers@.len() implies (
                        #[trigger] self.registers@[q]) is Some || self.spare_registers@.contains(
                            q as u8,
                        ) by {
                            if q != r {
                                assert(regs0[q] is Some || self.spare_registers@.contains(q as u8));
                            }
                        }
                    }
                    assert(!owned(alloc1, m as int)) by {
                        if owned(alloc1, m as int) {
                            let i = choose|i: int|
                                0 <= i < alloc1.len() && #[trigger] alloc1[i]
                                    == Allocation::Memory(m);
                            assert(alloc0[i] == alloc1[i]);
                            assert(alloc0[o as int] == Allocation::Memory(m));
                        }
                    }
                    assert forall|k: int| 0 <= k < spare1.len() implies (
                    #[trigger] spare1[k]) < self.out.slots() && !owned(alloc1, spare1[k] as int) by {
                        if k < spare0.len() {
                            assert(spare1[k] == spare0[k]);
                            assert(!owned(alloc0, spare0[k] as int));
                        }
                    }
                    assert forall|j: int, k: int| 0 <= j < k < spare1.len() implies spare1[j]
                        != spare1[k] by {
                        if k == spare0.len() {
                            assert(spare1[j] == spare0[j]);
                            assert(!owned(alloc0, spare0[j] as int));
                        }
                    }
                    assert forall|x: int| 0 <= x < self.out.slots() implies #[trigger] accounted(
                        alloc1,
                        spare1,
                        x,
                    ) by {
                        if x == m {
                            assert(spare1[spare0.len() as int] == m);
                        } else {
                            assert(accounted(alloc0, spare0, x));
                            if owned(alloc0, x) {
                                let i = choose|i: int|
                                    0 <= i < alloc0.len() && #[trigger] alloc0[i]
                                        == Allocation::Memory(x as u32);
                                assert(alloc1[i] == Allocation::Memory(x as u32));
                            } else {
                                let k = choose|k: int|
                                    0 <= k < spare0.len() && spare0[k] == x as u32;
                                assert(spare1[k] == x as u32);
                            }
                        }
                    }
                }
                r
            },
            Allocation::Unassigned => 0,
        }
    }

    /// Takes the next operation of a slot tape, which is walked from its
    /// root, and emits what computes it over registers.
    ///
    /// An operation whose result no operation taken before reads is left
    /// out. Otherwise its result is written to the register in which it is
    /// expected, after a store if it is expected in a spill slot. Operands
    /// that are not yet in a register take over the result's register, or
    /// one more; an operand that was expected in a spill slot is stored
    /// there before the operation runs; `passed` says which registers and
    /// spill slots are taken. While no spill slot is in use, an operation
    /// brings at most one more register into use, and the first spill slot
    /// only when all `N` registers are, and when emitted code reads more
    /// than `N` slots whose operations are still to come.
    #[verifier::rlimit(80)]
    pub fn op(&mut self, op: SsaOp)
        requires
            old(self).inv(),
            op.out() < old(self).size(),
            op.shape().arity() >= 1 ==> op.lhs() < old(self).size(),
            op.shape().arity() == 2 ==> op.rhs() < old(self).size(),
        ensures
            final(self).inv(),
            final(self).size() == old(self).size(),
            final(self).tables() == passed(old(self).tables(), N as int, op),
            final(self).slots() >= old(self).slots(),
            old(self).slots() == 0 && final(self).slots() > 0 ==> final(self).busy().finite()
                && final(self).busy().len() > N,
            old(self).slots() == 0 ==> final(self).handed() <= old(self).handed() + 1,
            old(self).slots() == 0 ==> final(self).slots() == 0 || old(self).handed() == N,
            final(self).taken() == old(self).taken().push(op),
            final(self).kept() == if old(self).assigned(op.out()) {
                old(self).kept().push(op)
            } else {
                old(self).kept()
            },
            forall|s: u32|
                s < old(self).size() ==> #[trigger] final(self).assigned(s) == if old(
                    self,
                ).assigned(op.out()) {
                    op.reads(s) || (old(self).assigned(s) && s != op.out())
                } else {
                    old(self).assigned(s)
                },
    {
        let (shape, o, a, b) = op.decompose();
        let arity: u8 = shape.operands();
        if let Allocation::Unassigned = self.allocations[o as usize] {
            proof {
                lemma_skip(self.allocations@, self.out@, self.fed@, op);
                self.fed = Ghost(self.fed@.push(op));
            }
            return ;
        }
        let rx: u8 = self.get_out_reg(o);
        proof {
            assert forall|s: u32| s < old(self).size() implies self.assigned(s) == old(
                self,
            ).assigned(s) by {
                assert(self.allocations@[s as int] == old(self).allocations@[s as int] || (old(
                    self,
                ).allocations@[s as int] is Register && self.allocations@[s as int] is Memory)
                    || s == o);
            }
        }
        let ghost mid = self.allocations@;
        let need_a: bool = arity >= 1;
        let need_b: bool = arity == 2 && b != a;
        let la: Allocation = if need_a && a != o {
            self.allocations[a as usize]
        } else {
            Allocation::Unassigned
        };
        let lb: Allocation = if need_b && b != o {
            self.allocations[b as usize]
        } else {
            Allocation::Unassigned
        };
        let (a_new, ra): (bool, u8) = match la {
            Allocation::Register(r) => (false, r),
            _ => (need_a, rx),
        };
        let (b_new, rb): (bool, u8) = if need_b {
            match lb {
                Allocation::Register(r) => (false, r),
                _ => if a_new {
                    (true, self.take_register(Some(rx)))
                } else {
                    (true, rx)
                },
            }
        } else {
            (false, ra)
        };
        let ghost alloc0 = self.allocations@;
        let ghost regs0 = self.registers@;
        let ghost spare_r0 = self.spare_registers@;
        let ghost spare_m0 = self.spare_memory@;
        let ghost out0 = self.out@;
        let ghost slots = self.out.slots() as int;
        let ghost handed = self.handed as int;
        let ghost ma: Option<u32> = match la {
            Allocation::Memory(m) => Some(m),
            _ => None,
        };
        let ghost mb: Option<u32> = match lb {
            Allocation::Memory(m) => Some(m),
            _ => None,
        };
        proof {
            assert(alloc0[o as int] == Allocation::Register(rx));
            assert(need_a && a != o ==> alloc0[a as int] == la);
            assert(need_b && b != o ==> alloc0[b as int] == lb);
        }

        self.out.push(op.to_reg(rx, ra, rb));
        self.allocations[o as usize] = Allocation::Unassigned;
        if a_new {
            self.allocations[a as usize] = Allocation::Register(ra);
            self.registers[ra as usize] = Some(a);
            if let Allocation::Memory(m) = la {
                self.out.push(RegOp::Store(m, ra));
                self.spare_memory.push(m);
            }
        }
        if b_new {
            self.allocations[b as usize] = Allocation::Register(rb);
            self.registers[rb as usize] = Some(b);
            if let Allocation::Memory(m) = lb {
                self.out.push(RegOp::Store(m, rb));
                self.spare_memory.push(m);
            }
        }
        if !a_new && !b_new {
            self.registers[rx as usize] = None;
            self.spare_registers.push(rx);
        }
        if need_a {
            self.register_lru.poke(ra);
        }
        if arity == 2 {
            self.register_lru.poke(rb);
        }
        proof {
            let alloc1 = self.allocations@;
            lemma_tidy(N as int, handed, slots, alloc0, regs0, spare_r0, spare_m0);
            lemma_lower(op, rx, ra, rb);
            assert(ready(
                N as int,
                handed,
                alloc0,
                regs0,
                spare_r0,
                o,
                a,
                b,
                rx,
                ra,
                rb,
                a_new,
                b_new,
                ma,
                mb,
            ));
            lemma_commit_spares(
                N as int,
                handed,
                slots,
                alloc0,
                regs0,
                spare_r0,
                spare_m0,
                o,
                a,
                b,
                rx,
                ra,
                rb,
                a_new,
                b_new,
                ma,
                mb,
            );
            lemma_commit_snug(N as int, handed, regs0, spare_r0, a, b, rx, ra, rb, a_new, b_new);
            lemma_padded_after(alloc0, o, a, b, ra, rb, a_new, b_new);
            assert(alloc1 == alloc_after(alloc0, o, a, b, ra, rb, a_new, b_new));
            assert(self.registers@ == regs_after(regs0, a, b, rx, ra, rb, a_new, b_new));
            if old(self).out.slots() == 0 && slots > 0 {
                lemma_commit_crowded(
                    N as int,
                    handed,
                    slots,
                    alloc0,
                    regs0,
                    spare_r0,
                    spare_m0,
                    o,
                    a,
                    b,
                    rx,
                    ra,
                    rb,
                    a_new,
                    b_new,
                    ma,
                    mb,
                );
            }
            assert(self.spare_memory@ == freed(freed(spare_m0, ma), mb));
            assert(self.out@ == with_stores(out0.push(op.lower(rx, ra, rb)), ma, ra, mb, rb));
            lemma_emit(N as int, alloc0, alloc1, out0, self.fed@, op, rx, ra, rb, ma, mb);
            self.fed = Ghost(self.fed@.push(op));
            lemma_skeleton_push(out0, op.lower(rx, ra, rb));
            let first = out0.push(op.lower(rx, ra, rb));
            if let Some(m) = ma {
                lemma_skeleton_push(first, RegOp::Store(m, ra));
            }
            let second = match ma {
                Some(m) => first.push(RegOp::Store(m, ra)),
                None => first,
            };
            if let Some(m) = mb {
                lemma_skeleton_push(second, RegOp::Store(m, rb));
            }
            assert(shapes(self.kept@.push(op)) =~= shapes(self.kept@).push(op.shape()));
            self.kept = Ghost(self.kept@.push(op));
            assert forall|s: u32| s < old(self).size() implies #[trigger] self.assigned(s) == (
            op.reads(s) || (old(self).assigned(s) && s != op.out())) by {
                assert(alloc0[s as int] == mid[s as int] || (mid[s as int] is Register
                    && alloc0[s as int] is Memory));
                assert(mid[s as int] == old(self).allocations@[s as int] || (old(
                    self,
                ).allocations@[s as int] is Register && mid[s as int] is Memory) || s == o);
            }
            self.lemma_busy();
        }
    }
}

/// Allocates registers for a whole tape. The result is the register tape
/// that `allocated` describes, operation by operation. It stays within `N`
/// registers and the spill slots that it declares, and leaves in register
/// 0 what the tape leaves in slot 0. A tape in which at no point more than
/// `N` values are alive, and so one of fewer than `N` operations, gets no
/// spill slot, and so no load or store.
pub fn allocate<const N: usize>(ssa: &SsaTape) -> (r: Tape)
    requires
        2 <= N <= 255,
        ssa.wf(),
    ensures
        r.limit() == N,
        r.within_limits(),
        implements(r@, ssa@),
        skeleton(r@) == shapes(ssa@),
        ssa@.len() > 0 ==> r@ == allocated(ssa@, N as int) && r.slots() == allocating(
            ssa@,
            N as int,
        ).slots,
        ssa@.len() < N ==> r.slots() == 0,
        roomy(ssa@, N as int) ==> r.slots() == 0,
{
    let n: usize = ssa.len();
    let mut alloc = RegisterAllocator::<N>::new(n);
    let mut k: usize = 0;
    while k < n
        invariant
            2 <= N <= 255,
            ssa.wf(),
            n == ssa@.len(),
            k <= n,
            alloc.inv(),
            alloc.size() == n,
            alloc.taken() == ssa@.take(k as int),
            alloc.kept() == ssa@.take(k as int),
            n > 0 ==> alloc.tables() == allocating(ssa@.take(k as int), N as int),
            alloc.slots() == 0 ==> alloc.handed() <= k + 1,
            n < N ==> alloc.slots() == 0,
            roomy(ssa@, N as int) ==> alloc.slots() == 0,
            forall|s: u32| s < n ==> #[trigger] alloc.assigned(s) == awaited(ssa@.take(k as int), s),
        decreases n - k,
    {
        let op = ssa.get(k);
        let ghost before = alloc;
        proof {
            lemma_awaited_next(ssa@, k as int);
            assert(ssa@.take(k + 1).drop_last() == ssa@.take(k as int));
            assert(ssa@.take(k + 1).last() == op);
        }
        alloc.op(op);
        proof {
            assert forall|s: u32| s < n implies #[trigger] alloc.assigned(s) == awaited(
                ssa@.take(k + 1),
                s,
            ) by {
                lemma_awaited_push(ssa@.take(k as int), op, s);
                assert(before.assigned(s) == awaited(ssa@.take(k as int), s));
            }
            if before.slots() == 0 && alloc.slots() > 0 {
                assert forall|s: int| alloc.busy().contains(s) == live(ssa@, k + 1).contains(
                    s,
                ) by {
                    if 0 <= s < n {
                        assert(alloc.assigned(s as u32) == awaited(ssa@.take(k + 1), s as u32));
                    }
                }
                assert(alloc.busy() =~= live(ssa@, k + 1));
            }
        }
        k = k + 1;
    }
    proof {
        assert(ssa@.take(n as int) == ssa@);
    }
    alloc.finalize()
}

} // verus!
