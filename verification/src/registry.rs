use vstd::prelude::*;

verus! {

/// Identifier of a registered set of component functions: an index into the
/// registry, compact on the wire. Server and client must register the same
/// components in the same order so the ids are mutually interpretable.
#[derive(Clone, Copy, Debug, PartialEq, Eq, Structural)]
pub struct FnsId(pub u64);

/// One registered replicated component type.
///
/// Component values are modelled as fixed-size byte strings: `value_len` is
/// what the type's serialize function writes and its deserialize function
/// consumes for one value.
#[derive(Debug, PartialEq, Eq, Structural)]
pub struct FnsEntry {
    /// The world's identifier for the component type.
    pub component_id: u64,
    /// How many bytes one serialized value occupies.
    pub value_len: usize,
}

/// Registry of replicated component types, in registration order; a `FnsId`
/// is an index into it.
pub struct ReplicationRegistry {
    pub entries: Vec<FnsEntry>,
}

impl ReplicationRegistry {
    /// An empty registry.
    pub fn new() -> (r: Self)
        ensures
            r.entries@ == Seq::<FnsEntry>::empty(),
    {
        Self { entries: Vec::new() }
    }

    /// Registers one component type and returns its id: the next index.
    pub fn register(&mut self, component_id: u64, value_len: usize) -> (r: FnsId)
        ensures
            final(self).entries@ == old(self).entries@.push(
                FnsEntry { component_id, value_len },
            ),
            r == FnsId(old(self).entries@.len() as u64),
    {
        let id = FnsId(self.entries.len() as u64);
        self.entries.push(FnsEntry { component_id, value_len });
        id
    }

    /// The entry registered under `fns_id`, or nothing for an unknown id.
    pub fn get(&self, fns_id: FnsId) -> (r: Option<&FnsEntry>)
        ensures
            fns_id.0 < self.entries@.len() ==> r == Some(&self.entries@[fns_id.0 as int]),
            fns_id.0 >= self.entries@.len() ==> r == None::<&FnsEntry>,
    {
        if fns_id.0 < self.entries.len() as u64 {
            Some(&self.entries[fns_id.0 as usize])
        } else {
            None
        }
    }

    /// How many component types are registered.
    pub fn len(&self) -> (r: usize)
        ensures
            r == self.entries@.len(),
    {
        self.entries.len()
    }
}

impl Default for ReplicationRegistry {
    /// An empty registry.
    fn default() -> (r: Self)
        ensures
            r.entries@ == Seq::<FnsEntry>::empty(),
    {
        Self::new()
    }
}

} // verus!
