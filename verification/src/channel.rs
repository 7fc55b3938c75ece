//! The lifecycle of the process-wide worker slot.
//!
//! The host keeps at most one live worker process behind a lock; this module
//! models that slot's state and gates every encode call on it having been
//! populated by a successful spawn.

use vstd::prelude::*;

use crate::wire::{ProtocolError, encode_request, nul_free, request_bytes, seq_views};
use crate::EMBEDDING_LENGTH;

verus! {

/// The state of the single process-wide worker slot: empty until the first
/// successful spawn, populated from then on.
#[derive(Clone, Copy, Debug, PartialEq, Eq, Structural)]
pub enum ChannelState {
    /// No worker has been spawned yet; encode calls must fail.
    Uninitialized,
    /// A worker is held in the slot; its pipes may be borrowed for one call.
    Running,
}

impl ChannelState {
    /// The state after a successful spawn stored its handle: running, whatever
    /// held before (re-initialization simply replaces the prior handle).
    pub fn after_initialize(&self) -> (r: ChannelState)
        ensures
            r == ChannelState::Running,
    {
        ChannelState::Running
    }

    /// Whether the slot holds a worker.
    pub fn is_running(&self) -> (r: bool)
        ensures
            r == (*self == ChannelState::Running),
    {
        matches!(self, ChannelState::Running)
    }
}

/// The compute part of one Encode call up to the pipe write: gate on the
/// lifecycle, then build the request stream.
///
/// Fails with the uninitialized error, before any framing, exactly when no
/// worker has been spawned — for every batch, the empty one included; with a
/// running worker it always succeeds and yields exactly the request bytes.
pub fn prepare_request(state: &ChannelState, sentences: &Vec<Vec<u8>>) -> (r: Result<
    Vec<u8>,
    ProtocolError,
>)
    requires
        sentences@.len() <= 0x7fff_ffff,
        forall|i: int| 0 <= i < sentences@.len() ==> nul_free(#[trigger] sentences@[i]@),
    ensures
        match r {
            Ok(bytes) => *state == ChannelState::Running && bytes@ == request_bytes(
                seq_views(sentences@),
            ),
            Err(e) => *state == ChannelState::Uninitialized && e == ProtocolError::Uninitialized,
        },
{
    match state {
        ChannelState::Uninitialized => Err(ProtocolError::Uninitialized),
        ChannelState::Running => Ok(encode_request(sentences)),
    }
}

/// How many response tokens one Encode call must read back: one embedding
/// vector per sentence, never fewer.
pub fn response_token_count(batch_size: usize) -> (r: usize)
    requires
        batch_size * EMBEDDING_LENGTH <= usize::MAX,
    ensures
        r == batch_size * EMBEDDING_LENGTH,
{
    batch_size * EMBEDDING_LENGTH
}

/// The slice of decoded tokens that belongs to sentence `i`: the response is
/// row-major, sentence-major and dimension-minor.
pub open spec fn embedding_row(tokens: Seq<Seq<u8>>, i: int) -> Seq<Seq<u8>> {
    tokens.subrange(i * (EMBEDDING_LENGTH as int), (i + 1) * (EMBEDDING_LENGTH as int))
}

/// Row-major ordering of a decoded response: for a batch of `batch`
/// sentences, row `i` has exactly one token per embedding dimension, and its
/// `j`-th token is the token at stream position `i * EMBEDDING_LENGTH + j` —
/// the output buffer position the value is stored at.
pub proof fn lemma_row_major(tokens: Seq<Seq<u8>>, batch: int, i: int, j: int)
    requires
        0 <= i < batch,
        0 <= j < EMBEDDING_LENGTH,
        tokens.len() == batch * (EMBEDDING_LENGTH as int),
    ensures
        embedding_row(tokens, i).len() == EMBEDDING_LENGTH,
        embedding_row(tokens, i)[j] == tokens[i * (EMBEDDING_LENGTH as int) + j],
{
    let e = EMBEDDING_LENGTH as int;
    vstd::arithmetic::mul::lemma_mul_inequality(i + 1, batch, e);
    vstd::arithmetic::mul::lemma_mul_nonnegative(i, e);
    assert((i + 1) * e == i * e + e) by (nonlinear_arith);
}

} // verus!
