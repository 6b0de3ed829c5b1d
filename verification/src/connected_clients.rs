use vstd::prelude::*;

verus! {

use crate::replicon_client::ClientId;

/// All connected clients, in connection order.
pub struct ConnectedClients {
    pub clients: Vec<ClientId>,
    pub replicate_after_connect: bool,
}

/// The index of `id` in `s`, or a negative value.
pub open spec fn client_index(s: Seq<ClientId>, id: ClientId) -> int
    decreases s.len(),
{
    if s.len() == 0 {
        -1
    } else if s[0] == id {
        0
    } else {
        let r = client_index(s.skip(1), id);
        if r < 0 {
            -1
        } else {
            1 + r
        }
    }
}

impl ConnectedClients {
    pub fn new(replicate_after_connect: bool) -> (r: Self)
        ensures
            r.clients@ == Seq::<ClientId>::empty(),
            r.spec_replicate_after_connect() == replicate_after_connect,
    {
        Self { clients: Vec::new(), replicate_after_connect }
    }

    /// Whether clients get replication enabled for them right after they
    /// connect.
    pub open spec fn spec_replicate_after_connect(self) -> bool {
        self.replicate_after_connect
    }

    /// Returns whether clients will automatically have replication enabled
    /// for them after they connect.
    pub fn replicate_after_connect(&self) -> (r: bool)
        ensures
            r == self.spec_replicate_after_connect(),
    {
        self.replicate_after_connect
    }

    /// How many clients are connected.
    pub fn len(&self) -> (r: usize)
        ensures
            r == self.clients@.len(),
    {
        self.clients.len()
    }

    /// Records a newly connected client.
    pub fn add(&mut self, client_id: ClientId)
        ensures
            final(self).clients@ == old(self).clients@.push(client_id),
            final(self).spec_replicate_after_connect() == old(
                self,
            ).spec_replicate_after_connect(),
    {
        self.clients.push(client_id);
    }

    /// Drops a disconnected client. The client must have been added before.
    #[verifier::loop_isolation(false)]
    pub fn remove(&mut self, client_id: ClientId)
        requires
            client_index(old(self).clients@, client_id) >= 0,
        ensures
            final(self).clients@ == old(self).clients@.remove(
                client_index(old(self).clients@, client_id),
            ),
            final(self).spec_replicate_after_connect() == old(
                self,
            ).spec_replicate_after_connect(),
    {
        let ghost s = self.clients@;
        proof {
            assert(s.skip(0) =~= s);
        }
        let mut i: usize = 0;
        while i < self.clients.len()
            invariant
                i <= s.len(),
                s == self.clients@,
                self.replicate_after_connect == old(self).replicate_after_connect,
                client_index(s, client_id) >= 0,
                client_index(s, client_id) == (if client_index(s.skip(i as int), client_id) < 0 {
                    -1int
                } else {
                    i + client_index(s.skip(i as int), client_id)
                }),
            decreases s.len() - i,
        {
            proof {
                assert(s.skip(i as int)[0] == s[i as int]);
                assert(s.skip(i as int).skip(1) =~= s.skip(i as int + 1));
            }
            if self.clients[i] == client_id {
                self.clients.remove(i);
                return ;
            }
            i = i + 1;
        }
        proof {
            assert(s.skip(s.len() as int).len() == 0);
        }
    }
}

impl Default for ConnectedClients {
    /// No clients, with replication enabled on connect.
    fn default() -> (r: Self)
        ensures
            r.clients@ == Seq::<ClientId>::empty(),
            r.spec_replicate_after_connect(),
    {
        Self::new(true)
    }
}

} // verus!
