use vstd::prelude::*;

verus! {

broadcast use vstd::std_specs::hash::group_hash_axioms;

use std::collections::HashMap;
use crate::replicon_client::ClientId;

/// The queued outgoing messages that survive a client's removal: every entry
/// addressed to another client, in order.
pub open spec fn purge_sent(s: Seq<(ClientId, bytes::Bytes)>, id: u64) -> Seq<
    (ClientId, bytes::Bytes),
>
    decreases s.len(),
{
    if s.len() == 0 {
        Seq::empty()
    } else if s[0].0.0 == id {
        purge_sent(s.skip(1), id)
    } else {
        seq![s[0]] + purge_sent(s.skip(1), id)
    }
}

/// The server's view of the transport, independent of the messaging backend:
/// whether it accepts connections, the messages queued for each client per
/// channel, and the messages received from each client per channel.
pub struct RepliconServer {
    running: bool,
    /// Queued outgoing messages per channel; the outer index is the channel.
    sent_messages: Vec<Vec<(ClientId, bytes::Bytes)>>,
    /// Received messages per channel, keyed by the sending client's id.
    received_messages: Vec<HashMap<u64, Vec<bytes::Bytes>>>,
}

impl RepliconServer {
    pub closed spec fn spec_running(self) -> bool {
        self.running
    }

    pub closed spec fn spec_sent(self) -> Seq<Vec<(ClientId, bytes::Bytes)>> {
        self.sent_messages@
    }

    pub closed spec fn spec_received(self) -> Seq<HashMap<u64, Vec<bytes::Bytes>>> {
        self.received_messages@
    }

    /// A stopped server with no channels.
    pub fn new() -> (r: Self)
        ensures
            !r.spec_running(),
            r.spec_sent().len() == 0,
            r.spec_received().len() == 0,
    {
        Self { running: false, sent_messages: Vec::new(), received_messages: Vec::new() }
    }

    /// Makes the message storage match the channel counts.
    pub fn setup_channels(&mut self, server_channels_count: usize, client_channels_count: usize)
        ensures
            final(self).spec_sent().len() == server_channels_count,
            final(self).spec_received().len() == client_channels_count,
            final(self).spec_running() == old(self).spec_running(),
    {
        self.sent_messages = Vec::new();
        let mut i: usize = 0;
        while i < server_channels_count
            invariant
                self.sent_messages@.len() == i,
                i <= server_channels_count,
                self.running == old(self).running,
                self.received_messages == old(self).received_messages,
            decreases server_channels_count - i,
        {
            self.sent_messages.push(Vec::new());
            i = i + 1;
        }
        self.received_messages = Vec::new();
        let mut i: usize = 0;
        while i < client_channels_count
            invariant
                self.received_messages@.len() == i,
                i <= client_channels_count,
                self.running == old(self).running,
                self.sent_messages@.len() == server_channels_count,
            decreases client_channels_count - i,
        {
            self.received_messages.push(HashMap::new());
            i = i + 1;
        }
    }

    /// Opens message storage for a newly connected client on every channel.
    pub fn add_client(&mut self, client_id: ClientId)
        ensures
            final(self).spec_received().len() == old(self).spec_received().len(),
            forall|i: int|
                0 <= i < old(self).spec_received().len() ==> (#[trigger] final(self).spec_received()[i])@ == old(self).spec_received()[i]@.insert(
                    client_id.0,
                    final(self).spec_received()[i]@[client_id.0],
                ) && final(self).spec_received()[i]@[client_id.0]@.len() == 0,
            final(self).spec_sent() == old(self).spec_sent(),
            final(self).spec_running() == old(self).spec_running(),
    {
        let n = self.received_messages.len();
        let mut i: usize = 0;
        while i < n
            invariant
                i <= n,
                n == self.received_messages@.len(),
                self.running == old(self).running,
                self.sent_messages == old(self).sent_messages,
                self.received_messages@.len() == old(self).received_messages@.len(),
                forall|k: int|
                    i <= k < n ==> #[trigger] self.received_messages@[k] == old(self).received_messages@[k],
                forall|k: int|
                    0 <= k < i ==> (#[trigger] self.received_messages@[k])@ == old(self).received_messages@[k]@.insert(
                        client_id.0,
                        self.received_messages@[k]@[client_id.0],
                    ) && self.received_messages@[k]@[client_id.0]@.len() == 0,
            decreases n - i,
        {
            let mut channel = self.received_messages.remove(i);
            channel.insert(client_id.0, Vec::new());
            self.received_messages.insert(i, channel);
            i = i + 1;
        }
    }

    /// Drops a disconnected client's storage and purges its queued outgoing
    /// messages from every channel; other clients' messages stay.
    pub fn remove_client(&mut self, client_id: ClientId)
        ensures
            final(self).spec_received().len() == old(self).spec_received().len(),
            forall|i: int|
                0 <= i < old(self).spec_received().len() ==> (#[trigger] final(self).spec_received()[i])@ == old(self).spec_received()[i]@.remove(client_id.0),
            final(self).spec_sent().len() == old(self).spec_sent().len(),
            forall|i: int|
                0 <= i < old(self).spec_sent().len() ==> (#[trigger] final(self).spec_sent()[i])@
                    == purge_sent(old(self).spec_sent()[i]@, client_id.0),
            final(self).spec_running() == old(self).spec_running(),
    {
        let ns = self.sent_messages.len();
        let mut i: usize = 0;
        while i < ns
            invariant
                i <= ns,
                ns == self.sent_messages@.len(),
                self.running == old(self).running,
                self.received_messages == old(self).received_messages,
                self.sent_messages@.len() == old(self).sent_messages@.len(),
                forall|k: int|
                    i <= k < ns ==> #[trigger] self.sent_messages@[k] == old(self).sent_messages@[k],
                forall|k: int|
                    0 <= k < i ==> (#[trigger] self.sent_messages@[k])@ == purge_sent(
                        old(self).sent_messages@[k]@,
                        client_id.0,
                    ),
            decreases ns - i,
        {
            let mut channel = self.sent_messages.remove(i);
            let ghost ch = channel@;
            let mut kept: Vec<(ClientId, bytes::Bytes)> = Vec::new();
            proof {
                assert(kept@ + purge_sent(ch, client_id.0) =~= purge_sent(ch, client_id.0));
            }
            while channel.len() > 0
                invariant
                    kept@ + purge_sent(channel@, client_id.0) == purge_sent(ch, client_id.0),
                decreases channel@.len(),
            {
                let ghost cb = channel@;
                let e = channel.remove(0);
                proof {
                    assert(channel@ =~= cb.skip(1));
                    assert(cb[0] == e);
                }
                if e.0.0 != client_id.0 {
                    let ghost kb = kept@;
                    kept.push(e);
                    proof {
                        assert(kb + (seq![e] + purge_sent(channel@, client_id.0)) =~= kept@
                            + purge_sent(channel@, client_id.0));
                    }
                }
            }
            proof {
                assert(purge_sent(channel@, client_id.0) =~= Seq::<(ClientId, bytes::Bytes)>::empty());
                assert(kept@ + Seq::<(ClientId, bytes::Bytes)>::empty() =~= kept@);
            }
            self.sent_messages.insert(i, kept);
            i = i + 1;
        }
        let n = self.received_messages.len();
        let ghost purged = self.sent_messages@;
        let mut i: usize = 0;
        while i < n
            invariant
                i <= n,
                n == self.received_messages@.len(),
                self.running == old(self).running,
                self.sent_messages@ == purged,
                purged.len() == old(self).sent_messages@.len(),
                forall|k: int|
                    0 <= k < purged.len() ==> (#[trigger] purged[k])@ == purge_sent(
                        old(self).sent_messages@[k]@,
                        client_id.0,
                    ),
                self.received_messages@.len() == old(self).received_messages@.len(),
                forall|k: int|
                    i <= k < n ==> #[trigger] self.received_messages@[k] == old(self).received_messages@[k],
                forall|k: int|
                    0 <= k < i ==> (#[trigger] self.received_messages@[k])@ == old(self).received_messages@[k]@.remove(client_id.0),
            decreases n - i,
        {
            let mut channel = self.received_messages.remove(i);
            channel.remove(&client_id.0);
            self.received_messages.insert(i, channel);
            i = i + 1;
        }
    }

    /// Takes one message received from a client over a channel, newest first.
    pub fn receive(&mut self, client_id: ClientId, channel_id: u8) -> (r: Option<bytes::Bytes>)
        requires
            channel_id < old(self).spec_received().len(),
        ensures
            final(self).spec_received().len() == old(self).spec_received().len(),
            ({
                let ch = old(self).spec_received()[channel_id as int]@;
                if ch.contains_key(client_id.0) && ch[client_id.0]@.len() > 0 {
                    let msgs = ch[client_id.0];
                    &&& r == Some(msgs@.last())
                    &&& final(self).spec_received()[channel_id as int]@ == ch.insert(
                        client_id.0,
                        final(self).spec_received()[channel_id as int]@[client_id.0],
                    )
                    &&& final(self).spec_received()[channel_id as int]@[client_id.0]@
                        == msgs@.drop_last()
                } else {
                    r is None
                }
            }),
            forall|i: int|
                0 <= i < old(self).spec_received().len() && i != channel_id ==> final(self).spec_received()[i] == old(self).spec_received()[i],
            final(self).spec_sent() == old(self).spec_sent(),
            final(self).spec_running() == old(self).spec_running(),
    {
        let mut channel = self.received_messages.remove(channel_id as usize);
        let r = match channel.remove(&client_id.0) {
            Some(mut msgs) => {
                let r = msgs.pop();
                match r {
                    Some(m) => {
                        channel.insert(client_id.0, msgs);
                        Some(m)
                    },
                    None => {
                        channel.insert(client_id.0, msgs);
                        None
                    },
                }
            },
            None => None,
        };
        self.received_messages.insert(channel_id as usize, channel);
        proof {
            let ch = old(self).received_messages@[channel_id as int]@;
            if ch.contains_key(client_id.0) {
                assert(self.received_messages@[channel_id as int]@ =~= ch.insert(
                    client_id.0,
                    self.received_messages@[channel_id as int]@[client_id.0],
                ));
            }
            assert(forall|i: int|
                0 <= i < old(self).received_messages@.len() && i != channel_id
                    ==> self.received_messages@[i] == old(self).received_messages@[i]);
        }
        r
    }

    /// Queues a message for a client over a channel.
    pub fn send(&mut self, client_id: ClientId, channel_id: u8, message: bytes::Bytes)
        requires
            channel_id < old(self).spec_sent().len(),
        ensures
            final(self).spec_sent().len() == old(self).spec_sent().len(),
            final(self).spec_sent()[channel_id as int]@ == old(self).spec_sent()[channel_id as int]@.push((client_id, message)),
            forall|i: int|
                0 <= i < old(self).spec_sent().len() && i != channel_id ==> final(self).spec_sent()[i] == old(self).spec_sent()[i],
            final(self).spec_received() == old(self).spec_received(),
            final(self).spec_running() == old(self).spec_running(),
    {
        let mut channel = self.sent_messages.remove(channel_id as usize);
        channel.push((client_id, message));
        self.sent_messages.insert(channel_id as usize, channel);
        proof {
            assert(forall|i: int|
                0 <= i < old(self).sent_messages@.len() && i != channel_id
                    ==> self.sent_messages@[i] == old(self).sent_messages@[i]);
        }
    }

    /// Marks the server running or stopped; stopping discards every queued
    /// and received message but keeps the channels.
    pub fn set_running(&mut self, running: bool)
        ensures
            final(self).spec_running() == running,
            final(self).spec_sent().len() == old(self).spec_sent().len(),
            final(self).spec_received().len() == old(self).spec_received().len(),
            !running ==> forall|i: int|
                0 <= i < final(self).spec_sent().len() ==> (#[trigger] final(self).spec_sent()[i])@.len() == 0,
            !running ==> forall|i: int|
                0 <= i < final(self).spec_received().len() ==> (#[trigger] final(self).spec_received()[i])@ == Map::<u64, Vec<bytes::Bytes>>::empty(),
            running ==> final(self).spec_sent() == old(self).spec_sent() && final(self).spec_received() == old(self).spec_received(),
    {
        if !running {
            let ns = self.sent_messages.len();
            let mut i: usize = 0;
            while i < ns
                invariant
                    i <= ns,
                    ns == self.sent_messages@.len(),
                    self.running == old(self).running,
                    self.received_messages == old(self).received_messages,
                    forall|k: int| 0 <= k < i ==> (#[trigger] self.sent_messages@[k])@.len() == 0,
                decreases ns - i,
            {
                self.sent_messages.remove(i);
                self.sent_messages.insert(i, Vec::new());
                i = i + 1;
            }
            let nr = self.received_messages.len();
            let mut i: usize = 0;
            while i < nr
                invariant
                    i <= nr,
                    nr == self.received_messages@.len(),
                    self.running == old(self).running,
                    self.sent_messages@.len() == ns,
                    forall|k: int| 0 <= k < ns ==> (#[trigger] self.sent_messages@[k])@.len() == 0,
                    forall|k: int|
                        0 <= k < i ==> (#[trigger] self.received_messages@[k])@ == Map::<
                            u64,
                            Vec<bytes::Bytes>,
                        >::empty(),
                decreases nr - i,
            {
                let mut channel = self.received_messages.remove(i);
                channel.clear();
                self.received_messages.insert(i, channel);
                i = i + 1;
            }
        }
        self.running = running;
    }

    /// Returns `true` if the server is running.
    pub fn is_running(&self) -> (r: bool)
        ensures
            r == self.spec_running(),
    {
        self.running
    }

    /// Takes every queued outgoing message, channel by channel: the
    /// messaging backend drains this each send phase.
    pub fn iter_sent_mut(&mut self) -> (r: Vec<Vec<(ClientId, bytes::Bytes)>>)
        ensures
            r@ == old(self).spec_sent(),
            final(self).spec_sent().len() == old(self).spec_sent().len(),
            forall|i: int|
                0 <= i < final(self).spec_sent().len() ==> (#[trigger] final(self).spec_sent()[i])@.len() == 0,
            final(self).spec_received() == old(self).spec_received(),
            final(self).spec_running() == old(self).spec_running(),
    {
        let n = self.sent_messages.len();
        let mut out: Vec<Vec<(ClientId, bytes::Bytes)>> = Vec::new();
        let mut i: usize = 0;
        while i < n
            invariant
                i <= n,
                n == self.sent_messages@.len(),
                out@.len() == i,
                self.running == old(self).running,
                self.received_messages == old(self).received_messages,
                forall|k: int| 0 <= k < i ==> #[trigger] out@[k] == old(self).sent_messages@[k],
                forall|k: int| 0 <= k < i ==> (#[trigger] self.sent_messages@[k])@.len() == 0,
                forall|k: int|
                    i <= k < n ==> #[trigger] self.sent_messages@[k] == old(self).sent_messages@[k],
            decreases n - i,
        {
            let channel = self.sent_messages.remove(i);
            self.sent_messages.insert(i, Vec::new());
            out.push(channel);
            i = i + 1;
        }
        proof {
            assert(out@ =~= old(self).sent_messages@);
        }
        out
    }

    /// Adds a message received from a client. The client must be connected
    /// and the channel must exist.
    pub fn insert_received(&mut self, client_id: ClientId, message: bytes::Bytes, channel_id: u8)
        requires
            channel_id < old(self).spec_received().len(),
            old(self).spec_received()[channel_id as int]@.contains_key(client_id.0),
        ensures
            final(self).spec_received().len() == old(self).spec_received().len(),
            ({
                let ch = old(self).spec_received()[channel_id as int]@;
                &&& final(self).spec_received()[channel_id as int]@ == ch.insert(
                    client_id.0,
                    final(self).spec_received()[channel_id as int]@[client_id.0],
                )
                &&& final(self).spec_received()[channel_id as int]@[client_id.0]@
                    == ch[client_id.0]@.push(message)
            }),
            forall|i: int|
                0 <= i < old(self).spec_received().len() && i != channel_id ==> final(self).spec_received()[i] == old(self).spec_received()[i],
            final(self).spec_sent() == old(self).spec_sent(),
            final(self).spec_running() == old(self).spec_running(),
    {
        let mut channel = self.received_messages.remove(channel_id as usize);
        let mut msgs = match channel.remove(&client_id.0) {
            Some(m) => m,
            None => Vec::new(),
        };
        msgs.push(message);
        channel.insert(client_id.0, msgs);
        self.received_messages.insert(channel_id as usize, channel);
        proof {
            let ch = old(self).received_messages@[channel_id as int]@;
            assert(self.received_messages@[channel_id as int]@ =~= ch.insert(
                client_id.0,
                self.received_messages@[channel_id as int]@[client_id.0],
            ));
            assert(forall|i: int|
                0 <= i < old(self).received_messages@.len() && i != channel_id
                    ==> self.received_messages@[i] == old(self).received_messages@[i]);
        }
    }
}

impl Default for RepliconServer {
    /// A stopped server with no channels.
    fn default() -> (r: Self)
        ensures
            !r.spec_running(),
            r.spec_sent().len() == 0,
            r.spec_received().len() == 0,
    {
        Self::new()
    }
}

} // verus!
