//! Tapes for implicit surfaces: compact programs that evaluate a scalar
//! expression, built to be run on many points and to be cut down as the
//! region of interest shrinks.
//!
//! An expression graph ([`context::Context`]) is flattened into a tape in
//! single-assignment form ([`ssa::SsaTape`]): one operation for each node,
//! the root first. A register allocator ([`regalloc::RegisterAllocator`])
//! turns that tape into one over a bounded number of registers
//! ([`tape::Tape`]), spilling what does not fit. Both tapes travel together
//! ([`data::VmData`]). Where an evaluator has found that a `min` or `max`
//! only ever takes one of its sides in a region, it records a
//! [`choice::Choice`], and [`data::VmData::simplify`] builds the shorter
//! tapes that compute the same there.
//!
//! Everything here is verified. The tapes are given a meaning as
//! expressions ([`op::Term`]); the contracts say that building, allocating
//! and simplifying keep that meaning, and [`equivalence`] and [`shrink`]
//! state what follows for evaluators of any kind.
//!
//! Immediates are kept as bit patterns of 32-bit IEEE-754 numbers: the
//! tapes carry them and never compute with them.
pub mod builder;
pub mod choice;
pub mod context;
pub mod data;
pub mod equivalence;
pub mod error;
pub mod frame;
pub mod lru;
pub mod metal;
pub mod op;
pub mod reg_op;
pub mod regalloc;
pub mod shrink;
pub mod simplify;
pub mod ssa;
pub mod ssa_op;
pub mod tape;

pub use crate::choice::Choice;
pub use crate::context::{Context, Node};
pub use crate::data::{VmData, VmWorkspace};
pub use crate::error::Error;
pub use crate::reg_op::RegOp;
pub use crate::regalloc::RegisterAllocator;
pub use crate::ssa::SsaTape;
pub use crate::ssa_op::SsaOp;
pub use crate::tape::Tape;
