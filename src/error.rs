use vstd::prelude::*;

verus! {

/// The kinds of failure that the shard lifecycle reports to its caller.
#[derive(Debug, Clone, Copy, PartialEq, Eq, Structural)]
pub enum CodecError {
    /// `k == 0`, or `k`/`m` outside what the engine supports, or a shard
    /// set whose size does not match the parameters.
    InvalidParameter,
    /// Shards that must share one length disagree in length.
    ShapeMismatch,
    /// Fewer than `k` shards are present: the loss cannot be repaired.
    ReconstructionFailure,
    /// A slot that recombination needs is absent.
    MissingShard,
    /// The requested length exceeds the bytes that the shards hold.
    InvalidLength,
    /// A loss index is not below the number of slots.
    IndexOutOfRange,
}

} // verus!
