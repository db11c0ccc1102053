//! The numbers that a machine-code backend for 64-bit ARM computes before
//! it emits an instruction: machine registers, offsets into the stack frame,
//! and the pieces of wide immediates.
use vstd::prelude::*;

verus! {

/// The number of tape registers that are kept in machine registers.
pub const REGISTER_LIMIT: u8 = 24;

/// The machine register that holds tape register 0.
pub const OFFSET: u8 = 8;

/// The machine register that holds immediates.
pub const IMM_REG: u8 = 3;

/// The bytes of the stack frame below the spill slots.
pub const STACK_SIZE: u32 = 0x238;

/// The bytes of one spill slot: four 32-bit lanes.
pub const SLOT_BYTES: u32 = 16;

/// The stack offsets that a load or store can name.
pub const FRAME_LIMIT: u32 = 65536;

/// The byte offsets into the variables that a load can name.
pub const VAR_LIMIT: u32 = 16384;

/// The stack offset of spill slot `slot`.
pub open spec fn spill_at(slot: int) -> int {
    slot * SLOT_BYTES + STACK_SIZE
}

/// The machine register that holds tape register `r`: `OFFSET` further on,
/// wrapping round at 256.
pub open spec fn machine_reg(r: u8) -> u8 {
    if r < 256 - OFFSET {
        (r + OFFSET) as u8
    } else {
        (r + OFFSET - 256) as u8
    }
}

/// Returns the machine register that holds tape register `r`. For a tape
/// register below the register limit this is one of the machine registers
/// 8 to 31.
pub fn reg(r: u8) -> (m: u8)
    ensures
        m == machine_reg(r),
        r < REGISTER_LIMIT ==> OFFSET <= m < 32,
{
    if r < 248 {
        r + OFFSET
    } else {
        r - 248
    }
}

/// Returns the number under which the register for immediates is named
/// where a tape register is expected.
pub fn imm_reg() -> (r: u8)
    ensures
        machine_reg(r) == IMM_REG,
        r >= REGISTER_LIMIT,
{
    251
}

/// Returns the offset of spill slot `slot` from the stack pointer, if a
/// load or store can name the offset.
pub fn spill_offset(slot: u32) -> (r: Option<u32>)
    ensures
        r == if spill_at(slot as int) < FRAME_LIMIT {
            Some(spill_at(slot as int) as u32)
        } else {
            None
        },
{
    if slot >= (FRAME_LIMIT - STACK_SIZE) / SLOT_BYTES + 1 {
        return None;
    }
    let at: u32 = slot * SLOT_BYTES + STACK_SIZE;
    if at < FRAME_LIMIT {
        Some(at)
    } else {
        None
    }
}

/// Returns the byte offset of variable `var` in the array of variables, if
/// a load can name it.
pub fn var_offset(var: u32) -> (r: Option<u32>)
    ensures
        r == if var * 4 < VAR_LIMIT {
            Some((var * 4) as u32)
        } else {
            None
        },
{
    if var < VAR_LIMIT / 4 {
        Some(var * 4)
    } else {
        None
    }
}

/// The bytes of the frame for `slots` spill slots: the fixed part and the
/// spill slots, rounded up to a multiple of 16.
pub open spec fn frame_size(slots: int) -> int {
    (slots * SLOT_BYTES + STACK_SIZE + 15) / 16 * 16
}

/// Returns the bytes that the frame needs for `slots` spill slots, if they
/// can be counted in 32 bits.
pub fn frame_bytes(slots: u32) -> (r: Option<u32>)
    ensures
        r == if frame_size(slots as int) <= u32::MAX {
            Some(frame_size(slots as int) as u32)
        } else {
            None
        },
{
    if slots > (u32::MAX - STACK_SIZE - 15) / SLOT_BYTES {
        return None;
    }
    let raw: u32 = slots * SLOT_BYTES + STACK_SIZE;
    Some((raw + 15) / 16 * 16)
}

/// Returns the upper and the lower half of a 32-bit immediate, for a pair
/// of move instructions.
pub fn halves(bits: u32) -> (r: (u32, u32))
    ensures
        r.0 < 65536,
        r.1 < 65536,
        r.0 * 65536 + r.1 == bits,
{
    let hi: u32 = bits >> 16;
    let lo: u32 = bits & 0xffff;
    assert(hi < 65536 && lo < 65536 && hi * 65536 + lo == bits) by (bit_vector)
        requires
            hi == bits >> 16,
            lo == bits & 0xffff,
    ;
    (hi, lo)
}

/// Returns the four 16-bit pieces of an address, the highest first, for a
/// chain of move instructions.
pub fn quarters(addr: u64) -> (r: (u32, u32, u32, u32))
    ensures
        r.0 < 65536,
        r.1 < 65536,
        r.2 < 65536,
        r.3 < 65536,
        ((r.0 * 65536 + r.1) * 65536 + r.2) * 65536 + r.3 == addr,
{
    let a: u64 = addr >> 48;
    let b: u64 = (addr >> 32) & 0xffff;
    let c: u64 = (addr >> 16) & 0xffff;
    let d: u64 = addr & 0xffff;
    assert(a < 65536 && b < 65536 && c < 65536 && d < 65536 && ((a * 65536 + b) * 65536 + c)
        * 65536 + d == addr) by (bit_vector)
        requires
            a == addr >> 48,
            b == (addr >> 32) & 0xffff,
            c == (addr >> 16) & 0xffff,
            d == addr & 0xffff,
    ;
    (a as u32, b as u32, c as u32, d as u32)
}

} // verus!
