//! Transport and lifecycle logic for a batch-embedding worker process.
//!
//! A long-lived child process computes fixed-length embeddings; this crate
//! holds the logic around it: encoding a batch of sentences into the
//! NUL-framed request stream the worker reads, splitting its NUL-framed
//! response stream back into tokens, and the lifecycle gate that rejects
//! encode calls before a worker has been spawned.  Spawning, pipe I/O and
//! parsing each response token as a floating-point number are left to the
//! surrounding host code.

use vstd::prelude::*;

pub mod channel;
pub mod wire;

verus! {

/// Number of values in one embedding vector; the worker writes exactly this
/// many tokens per sentence.
pub const EMBEDDING_LENGTH: usize = 384;

/// Connectivity probe across the foreign-call boundary: doubles its argument.
pub fn ping(x: i32) -> (r: i32)
    requires
        -0x4000_0000 <= x < 0x4000_0000,
    ensures
        r == 2 * x,
{
    2 * x
}

} // verus!
