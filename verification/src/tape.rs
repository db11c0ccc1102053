//! The register tape: operations over a bounded set of registers and an
//! unbounded pool of spill slots.
use vstd::prelude::*;
use vstd::std_specs::slice::into_iter_elts;
use crate::reg_op::RegOp;

verus! {

/// A sequence of register operations, stored with the last operation to
/// run first.
///
/// Registers are numbered from 0 up to the register limit, and spill slots
/// from 0 up to the slot count.
#[derive(Clone)]
pub struct Tape {
    tape: Vec<RegOp>,
    /// Number of spill slots handed out
    slot_count: u32,
    /// Number of registers, before we fall back to Load/Store operations
    reg_limit: u8,
}

impl View for Tape {
    type V = Seq<RegOp>;

    /// The operations, in stored order.
    closed spec fn view(&self) -> Seq<RegOp> {
        self.tape@
    }
}

impl Default for Tape {
    /// An empty tape without registers or slots.
    fn default() -> (r: Tape)
        ensures
            r@ == Seq::<RegOp>::empty(),
            r.slots() == 0,
            r.limit() == 0,
    {
        Tape { tape: Vec::new(), slot_count: 0, reg_limit: 0 }
    }
}

impl Tape {
    /// The number of spill slots handed out.
    pub closed spec fn slots(&self) -> u32 {
        self.slot_count
    }

    /// The number of registers.
    pub closed spec fn limit(&self) -> u8 {
        self.reg_limit
    }

    /// True when every operation stays within the registers and the spill
    /// slots that the tape declares.
    pub open spec fn within_limits(&self) -> bool {
        forall|i: int|
            0 <= i < self@.len() ==> (#[trigger] self@[i]).within(
                self.limit() as int,
                self.slots() as int,
            )
    }

    /// An empty tape with `reg_limit` registers and no spill slot.
    pub fn new(reg_limit: u8) -> (r: Tape)
        ensures
            r@ == Seq::<RegOp>::empty(),
            r.slots() == 0,
            r.limit() == reg_limit,
    {
        Tape { tape: Vec::with_capacity(512), slot_count: 0, reg_limit }
    }

    /// Empties the tape and gives it `reg_limit` registers, keeping its
    /// storage.
    pub fn reset(&mut self, reg_limit: u8)
        ensures
            final(self)@ == Seq::<RegOp>::empty(),
            final(self).slots() == 0,
            final(self).limit() == reg_limit,
    {
        self.tape.clear();
        self.slot_count = 0;
        self.reg_limit = reg_limit;
    }

    /// Returns the number of registers.
    pub fn reg_limit(&self) -> (r: u8)
        ensures
            r == self.limit(),
    {
        self.reg_limit
    }

    /// Returns the number of spill slots that the tape uses.
    #[inline]
    pub fn slot_count(&self) -> (r: usize)
        ensures
            r == self.slots(),
    {
        self.slot_count as usize
    }

    /// Returns the number of operations.
    #[inline]
    pub fn len(&self) -> (r: usize)
        ensures
            r == self@.len(),
    {
        self.tape.len()
    }

    /// Tells whether the tape holds no operation.
    #[inline]
    pub fn is_empty(&self) -> (r: bool)
        ensures
            r == (self@.len() == 0),
    {
        self.tape.len() == 0
    }

    /// Walks the operations in stored order, the last to run first.
    #[inline]
    pub fn iter(&self) -> (it: std::slice::Iter<'_, RegOp>)
        ensures
            into_iter_elts(it) == self@,
    {
        self.tape.iter()
    }

    /// Returns the operation at position `i` of the stored order.
    pub fn get(&self, i: usize) -> (r: RegOp)
        requires
            i < self@.len(),
        ensures
            r == self@[i as int],
    {
        self.tape[i]
    }

    /// Appends an operation: it will run before all that the tape holds.
    #[inline]
    pub fn push(&mut self, op: RegOp)
        ensures
            final(self)@ == old(self)@.push(op),
            final(self).slots() == old(self).slots(),
            final(self).limit() == old(self).limit(),
    {
        self.tape.push(op)
    }

    /// Hands out the next spill slot.
    pub(crate) fn take_slot(&mut self) -> (r: u32)
        requires
            old(self).slots() < u32::MAX,
        ensures
            r == old(self).slots(),
            final(self).slots() == r + 1,
            final(self)@ == old(self)@,
            final(self).limit() == old(self).limit(),
    {
        let r: u32 = self.slot_count;
        self.slot_count = r + 1;
        r
    }
}

} // verus!
