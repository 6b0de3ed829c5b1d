use vstd::prelude::*;

verus! {

broadcast use vstd::std_specs::hash::group_hash_axioms;

use std::collections::HashMap;
use crate::entity::Entity;

/// The entity whose canonical 64-bit form is `b`.
pub open spec fn entity_of_bits(b: u64) -> Entity {
    Entity { index: (b % 0x1_0000_0000) as u32, generation: (b / 0x1_0000_0000) as u32 }
}

/// Packing and unpacking the canonical form are inverses.
pub proof fn lemma_entity_bits_inverse(e: Entity, b: u64)
    ensures
        entity_of_bits(e.spec_bits()) == e,
        entity_of_bits(b).spec_bits() == b,
{
    assert(entity_of_bits((e.generation * 0x1_0000_0000 + e.index) as u64) == e)
        by (nonlinear_arith)
        requires
            e.index < 0x1_0000_0000,
            e.generation < 0x1_0000_0000,
    ;
    assert((b / 0x1_0000_0000) * 0x1_0000_0000 + (b % 0x1_0000_0000) == b) by (nonlinear_arith);
}

/// Splits the canonical 64-bit form back into an entity.
pub fn entity_from_bits(b: u64) -> (r: Entity)
    ensures
        r == entity_of_bits(b),
{
    Entity { index: (b % 0x1_0000_0000) as u32, generation: (b / 0x1_0000_0000) as u32 }
}

/// Bidirectional mapping between server and client entity identifiers, held
/// as two hash maps over the identifiers' canonical 64-bit forms.
///
/// The fields are public so contracts can speak about them; they are meant to
/// be changed only through the methods below, which keep the two directions
/// mutually consistent.
pub struct ServerEntityMap {
    /// Client entity bits for each server entity's bits.
    pub to_client: HashMap<u64, u64>,
    /// Server entity bits for each client entity's bits.
    pub to_server: HashMap<u64, u64>,
}

/// The two directions are inverses of one another.
pub open spec fn maps_wf(tc: Map<u64, u64>, ts: Map<u64, u64>) -> bool {
    &&& forall|k: u64| #[trigger]
        tc.contains_key(k) ==> ts.contains_key(tc[k]) && ts[tc[k]] == k
    &&& forall|k: u64| #[trigger]
        ts.contains_key(k) ==> tc.contains_key(ts[k]) && tc[ts[k]] == k
}

/// The server-to-client direction after mapping `sb` to `cb`: any stale pair
/// claiming `cb` goes away and `sb` points at `cb`.
pub open spec fn map_insert_to_client(tc: Map<u64, u64>, ts: Map<u64, u64>, sb: u64, cb: u64) -> Map<
    u64,
    u64,
> {
    (if ts.contains_key(cb) {
        tc.remove(ts[cb])
    } else {
        tc
    }).insert(sb, cb)
}

/// The client-to-server direction after mapping `sb` to `cb`.
pub open spec fn map_insert_to_server(tc: Map<u64, u64>, ts: Map<u64, u64>, sb: u64, cb: u64) -> Map<
    u64,
    u64,
> {
    (if tc.contains_key(sb) {
        ts.remove(tc[sb])
    } else {
        ts
    }).insert(cb, sb)
}

impl ServerEntityMap {
    /// The two directions are inverses of one another.
    pub open spec fn wf(self) -> bool {
        maps_wf(self.to_client@, self.to_server@)
    }

    /// The server-to-client direction after mapping `sb` to `cb`.
    pub open spec fn spec_insert_to_client(self, sb: u64, cb: u64) -> Map<u64, u64> {
        map_insert_to_client(self.to_client@, self.to_server@, sb, cb)
    }

    /// The client-to-server direction after mapping `sb` to `cb`.
    pub open spec fn spec_insert_to_server(self, sb: u64, cb: u64) -> Map<u64, u64> {
        map_insert_to_server(self.to_client@, self.to_server@, sb, cb)
    }

    /// An empty map.
    pub fn new() -> (r: Self)
        ensures
            r.wf(),
            r.to_client@ == Map::<u64, u64>::empty(),
            r.to_server@ == Map::<u64, u64>::empty(),
    {
        Self { to_client: HashMap::new(), to_server: HashMap::new() }
    }

    /// Maps `server` to `client` in both directions, unmapping whatever
    /// either of the two was previously paired with.
    pub fn insert(&mut self, server: Entity, client: Entity)
        requires
            old(self).wf(),
        ensures
            final(self).wf(),
            final(self).to_client@ == old(self).spec_insert_to_client(
                server.spec_bits(),
                client.spec_bits(),
            ),
            final(self).to_server@ == old(self).spec_insert_to_server(
                server.spec_bits(),
                client.spec_bits(),
            ),
    {
        let sb = server.to_bits();
        let cb = client.to_bits();
        let stale_client: Option<u64> = match self.to_client.get(&sb) {
            Some(ocb) => Some(*ocb),
            None => None,
        };
        if let Some(ocb) = stale_client {
            self.to_server.remove(&ocb);
        }
        let stale_server: Option<u64> = match self.to_server.get(&cb) {
            Some(osb) => Some(*osb),
            None => None,
        };
        if let Some(osb) = stale_server {
            self.to_client.remove(&osb);
        }
        self.to_client.insert(sb, cb);
        self.to_server.insert(cb, sb);
        proof {
            assert(self.to_client@ =~= old(self).spec_insert_to_client(sb, cb));
            assert(self.to_server@ =~= old(self).spec_insert_to_server(sb, cb));
        }
    }

    /// The client entity paired with `server`, if any.
    pub fn get_by_server(&self, server: Entity) -> (r: Option<Entity>)
        ensures
            r == if self.to_client@.contains_key(server.spec_bits()) {
                Some(entity_of_bits(self.to_client@[server.spec_bits()]))
            } else {
                None::<Entity>
            },
    {
        let sb = server.to_bits();
        match self.to_client.get(&sb) {
            Some(cb) => Some(entity_from_bits(*cb)),
            None => None,
        }
    }

    /// Unmaps `server`, returning the client entity it pointed at, if any.
    pub fn remove_by_server(&mut self, server: Entity) -> (r: Option<Entity>)
        requires
            old(self).wf(),
        ensures
            final(self).wf(),
            r == if old(self).to_client@.contains_key(server.spec_bits()) {
                Some(entity_of_bits(old(self).to_client@[server.spec_bits()]))
            } else {
                None::<Entity>
            },
            final(self).to_client@ == old(self).to_client@.remove(server.spec_bits()),
            final(self).to_server@ == if old(self).to_client@.contains_key(server.spec_bits()) {
                old(self).to_server@.remove(old(self).to_client@[server.spec_bits()])
            } else {
                old(self).to_server@
            },
    {
        let sb = server.to_bits();
        let taken: Option<u64> = match self.to_client.remove(&sb) {
            Some(cb) => Some(cb),
            None => None,
        };
        match taken {
            Some(cb) => {
                self.to_server.remove(&cb);
                proof {
                    assert(self.to_client@ =~= old(self).to_client@.remove(sb));
                    assert(self.to_server@ =~= old(self).to_server@.remove(
                        old(self).to_client@[sb],
                    ));
                }
                Some(entity_from_bits(cb))
            },
            None => {
                proof {
                    assert(self.to_client@ =~= old(self).to_client@.remove(sb));
                }
                None
            },
        }
    }

    /// Forgets every pair.
    pub fn clear(&mut self)
        ensures
            final(self).wf(),
            final(self).to_client@ == Map::<u64, u64>::empty(),
            final(self).to_server@ == Map::<u64, u64>::empty(),
    {
        self.to_client.clear();
        self.to_server.clear();
    }

    /// How many pairs are mapped.
    pub fn len(&self) -> (r: usize)
        ensures
            r == self.to_client@.len(),
    {
        self.to_client.len()
    }

    /// Whether nothing is mapped.
    pub fn is_empty(&self) -> (r: bool)
        ensures
            r == self.to_client@.is_empty(),
    {
        self.to_client.is_empty()
    }
}

impl Default for ServerEntityMap {
    /// An empty map.
    fn default() -> (r: Self)
        ensures
            r.wf(),
            r.to_client@ == Map::<u64, u64>::empty(),
            r.to_server@ == Map::<u64, u64>::empty(),
    {
        Self::new()
    }
}

} // verus!
