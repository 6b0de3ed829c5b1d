use vstd::prelude::*;

verus! {

use crate::tick::RepliconTick;

/// Replication context for serialization functions.
#[derive(Clone, Copy, Debug, PartialEq, Eq, Structural)]
pub struct SerializeCtx {
    /// Current tick.
    pub replicon_tick: RepliconTick,
}

/// Replication context for writing and deserialization. The entity map and
/// the world travel beside it as explicit arguments.
#[derive(Clone, Copy, Debug, PartialEq, Eq, Structural)]
pub struct WriteCtx {
    /// Tick of the message being processed.
    pub message_tick: RepliconTick,
    /// When set, entity-valued fields are written as they came instead of
    /// being rewritten from server space to client space.
    pub ignore_mapping: bool,
}

impl WriteCtx {
    pub fn new(message_tick: RepliconTick) -> (r: Self)
        ensures
            r == (WriteCtx { message_tick, ignore_mapping: false }),
    {
        Self { message_tick, ignore_mapping: false }
    }
}

/// Replication context for removal and despawn functions.
#[derive(Clone, Copy, Debug, PartialEq, Eq, Structural)]
pub struct DeleteCtx {
    /// Tick of the message being processed.
    pub message_tick: RepliconTick,
}

} // verus!
