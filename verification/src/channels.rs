use vstd::prelude::*;

verus! {

/// The two logical channels between a server and each client.
#[derive(Clone, Copy, Debug, PartialEq, Eq, Structural)]
pub enum ReplicationChannel {
    /// Reliable and ordered: spawns, despawns, insertions, removals, entity
    /// mappings, and the clients' mutate acknowledgments.
    Updates,
    /// Unordered: pure component-value mutations.
    Mutations,
}

impl ReplicationChannel {
    /// The channel's wire id.
    pub fn index(self) -> (r: u8)
        ensures
            self is Updates ==> r == 0,
            self is Mutations ==> r == 1,
    {
        match self {
            ReplicationChannel::Updates => 0,
            ReplicationChannel::Mutations => 1,
        }
    }
}

} // verus!
