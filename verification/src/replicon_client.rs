use vstd::prelude::*;

verus! {

/// A connected client's identifier, as the messaging backend assigns it.
#[derive(Clone, Copy, Debug, PartialEq, Eq, Structural, Hash)]
pub struct ClientId(pub u64);

/// Connection status of the client.
#[derive(Clone, Copy, Debug, PartialEq, Eq, Structural)]
pub enum RepliconClientStatus {
    /// Not connected or trying to connect.
    Disconnected,
    /// Trying to connect to the server.
    Connecting,
    /// Connected, with the server-assigned id when one was assigned.
    Connected { client_id: Option<ClientId> },
}

/// The client's view of the transport, independent of the messaging backend:
/// its status, the messages received on each channel since the last tick,
/// and the messages it queued to send. The backend feeds `insert_received`,
/// drains `drain_sent`, and flips `set_status`.
pub struct RepliconClient {
    status: RepliconClientStatus,
    /// Received messages per channel; the outer index is the channel id.
    received_messages: Vec<Vec<bytes::Bytes>>,
    /// Queued outgoing messages with their channels.
    sent_messages: Vec<(u8, bytes::Bytes)>,
}

impl RepliconClient {
    pub closed spec fn spec_status(self) -> RepliconClientStatus {
        self.status
    }

    /// Received messages per channel.
    pub closed spec fn spec_received(self) -> Seq<Vec<bytes::Bytes>> {
        self.received_messages@
    }

    /// Queued outgoing messages.
    pub closed spec fn spec_sent(self) -> Seq<(u8, bytes::Bytes)> {
        self.sent_messages@
    }

    pub open spec fn spec_is_connected(self) -> bool {
        self.spec_status() is Connected
    }

    /// A disconnected client with no channels.
    pub fn new() -> (r: Self)
        ensures
            r.spec_status() == RepliconClientStatus::Disconnected,
            r.spec_received().len() == 0,
            r.spec_sent().len() == 0,
    {
        Self {
            status: RepliconClientStatus::Disconnected,
            received_messages: Vec::new(),
            sent_messages: Vec::new(),
        }
    }

    /// Makes the receive storage match the number of server channels.
    #[verifier::loop_isolation(false)]
    pub fn setup_server_channels(&mut self, channels_count: usize)
        ensures
            final(self).spec_received().len() == channels_count,
            forall|i: int|
                0 <= i < channels_count && i < old(self).spec_received().len()
                    ==> final(self).spec_received()[i] == old(self).spec_received()[i],
            forall|i: int|
                old(self).spec_received().len() <= i < channels_count
                    ==> (#[trigger] final(self).spec_received()[i])@.len() == 0,
            final(self).spec_status() == old(self).spec_status(),
            final(self).spec_sent() == old(self).spec_sent(),
    {
        while self.received_messages.len() > channels_count
            invariant
                self.status == old(self).status,
                self.sent_messages == old(self).sent_messages,
                forall|k: int|
                    0 <= k < self.received_messages@.len() ==> #[trigger] self.received_messages@[k]
                        == old(self).received_messages@[k],
                self.received_messages@.len() <= old(self).received_messages@.len(),
                self.received_messages@.len() >= channels_count || self.received_messages@.len()
                    == old(self).received_messages@.len(),
            decreases self.received_messages@.len(),
        {
            self.received_messages.pop();
        }
        while self.received_messages.len() < channels_count
            invariant
                self.status == old(self).status,
                self.sent_messages == old(self).sent_messages,
                self.received_messages@.len() <= channels_count,
                old(self).received_messages@.len() <= self.received_messages@.len()
                    || channels_count <= self.received_messages@.len(),
                forall|k: int|
                    0 <= k < self.received_messages@.len() && k < old(
                        self,
                    ).received_messages@.len() ==> #[trigger] self.received_messages@[k] == old(
                        self,
                    ).received_messages@[k],
                forall|k: int|
                    old(self).received_messages@.len() <= k < self.received_messages@.len() ==> (
                    #[trigger] self.received_messages@[k])@.len() == 0,
            decreases channels_count - self.received_messages@.len(),
        {
            self.received_messages.push(Vec::new());
        }
    }

    /// How many messages wait on a channel.
    pub fn received_count(&self, channel_id: u8) -> (r: usize)
        requires
            channel_id < self.spec_received().len(),
        ensures
            r == self.spec_received()[channel_id as int]@.len(),
    {
        self.received_messages[channel_id as usize].len()
    }

    /// Takes every message received on a channel since the last tick.
    pub fn receive(&mut self, channel_id: u8) -> (r: Vec<bytes::Bytes>)
        requires
            channel_id < old(self).spec_received().len(),
        ensures
            r == old(self).spec_received()[channel_id as int],
            final(self).spec_received() == old(self).spec_received().update(
                channel_id as int,
                final(self).spec_received()[channel_id as int],
            ),
            final(self).spec_received()[channel_id as int]@.len() == 0,
            final(self).spec_received().len() == old(self).spec_received().len(),
            final(self).spec_status() == old(self).spec_status(),
            final(self).spec_sent() == old(self).spec_sent(),
    {
        let taken = self.received_messages.remove(channel_id as usize);
        self.received_messages.insert(channel_id as usize, Vec::new());
        proof {
            assert(self.received_messages@ =~= old(self).received_messages@.update(
                channel_id as int,
                self.received_messages@[channel_id as int],
            ));
        }
        taken
    }

    /// Queues a message for the server. Dropped while not connected.
    pub fn send(&mut self, channel_id: u8, message: bytes::Bytes)
        ensures
            final(self).spec_sent() == if old(self).spec_is_connected() {
                old(self).spec_sent().push((channel_id, message))
            } else {
                old(self).spec_sent()
            },
            final(self).spec_received() == old(self).spec_received(),
            final(self).spec_status() == old(self).spec_status(),
    {
        if !self.is_connected() {
            return ;
        }
        self.sent_messages.push((channel_id, message));
    }

    /// Sets the connection status, discarding every queued and received
    /// message when the client leaves the connected state.
    #[verifier::loop_isolation(false)]
    pub fn set_status(&mut self, status: RepliconClientStatus)
        ensures
            final(self).spec_status() == status,
            final(self).spec_received().len() == old(self).spec_received().len(),
            if old(self).spec_is_connected() && !(status is Connected) {
                &&& forall|i: int|
                    0 <= i < final(self).spec_received().len()
                        ==> (#[trigger] final(self).spec_received()[i])@.len() == 0
                &&& final(self).spec_sent().len() == 0
            } else {
                &&& final(self).spec_received() == old(self).spec_received()
                &&& final(self).spec_sent() == old(self).spec_sent()
            },
    {
        let was_connected = self.is_connected();
        let leaving = match status {
            RepliconClientStatus::Connected { .. } => false,
            _ => true,
        };
        if was_connected && leaving {
            let n = self.received_messages.len();
            let mut i: usize = 0;
            while i < n
                invariant
                    i <= n,
                    n == self.received_messages@.len(),
                    self.status == old(self).status,
                    self.sent_messages == old(self).sent_messages,
                    forall|k: int|
                        0 <= k < i ==> (#[trigger] self.received_messages@[k])@.len() == 0,
                decreases n - i,
            {
                self.received_messages.remove(i);
                self.received_messages.insert(i, Vec::new());
                i = i + 1;
            }
            self.sent_messages.clear();
        }
        self.status = status;
    }

    /// The current connection status.
    pub fn status(&self) -> (r: RepliconClientStatus)
        ensures
            r == self.spec_status(),
    {
        self.status
    }

    /// Returns `true` if the client is disconnected.
    pub fn is_disconnected(&self) -> (r: bool)
        ensures
            r == (self.spec_status() is Disconnected),
    {
        match self.status {
            RepliconClientStatus::Disconnected => true,
            _ => false,
        }
    }

    /// Returns `true` if the client is connecting.
    pub fn is_connecting(&self) -> (r: bool)
        ensures
            r == (self.spec_status() is Connecting),
    {
        match self.status {
            RepliconClientStatus::Connecting => true,
            _ => false,
        }
    }

    /// Returns `true` if the client is connected.
    pub fn is_connected(&self) -> (r: bool)
        ensures
            r == self.spec_is_connected(),
    {
        match self.status {
            RepliconClientStatus::Connected { .. } => true,
            _ => false,
        }
    }

    /// The server-assigned id, when connected and one was assigned.
    pub fn id(&self) -> (r: Option<ClientId>)
        ensures
            r == (match self.spec_status() {
                RepliconClientStatus::Connected { client_id } => client_id,
                _ => None::<ClientId>,
            }),
    {
        match self.status {
            RepliconClientStatus::Connected { client_id } => client_id,
            _ => None,
        }
    }

    /// Takes every queued outgoing message, with its channel.
    pub fn drain_sent(&mut self) -> (r: Vec<(u8, bytes::Bytes)>)
        ensures
            r@ == old(self).spec_sent(),
            final(self).spec_sent().len() == 0,
            final(self).spec_received() == old(self).spec_received(),
            final(self).spec_status() == old(self).spec_status(),
    {
        let mut out: Vec<(u8, bytes::Bytes)> = Vec::new();
        core::mem::swap(&mut out, &mut self.sent_messages);
        out
    }

    /// Adds a message from the server on a channel. Dropped while not
    /// connected.
    pub fn insert_received(&mut self, channel_id: u8, message: bytes::Bytes)
        requires
            channel_id < old(self).spec_received().len(),
        ensures
            final(self).spec_received().len() == old(self).spec_received().len(),
            if old(self).spec_is_connected() {
                &&& final(self).spec_received()[channel_id as int]@ == old(self).spec_received()[channel_id as int]@.push(message)
                &&& forall|i: int|
                    0 <= i < old(self).spec_received().len() && i != channel_id
                        ==> final(self).spec_received()[i] == old(self).spec_received()[i]
            } else {
                final(self).spec_received() == old(self).spec_received()
            },
            final(self).spec_sent() == old(self).spec_sent(),
            final(self).spec_status() == old(self).spec_status(),
    {
        if !self.is_connected() {
            return ;
        }
        let mut channel = self.received_messages.remove(channel_id as usize);
        channel.push(message);
        self.received_messages.insert(channel_id as usize, channel);
        proof {
            assert(forall|i: int|
                0 <= i < old(self).received_messages@.len() && i != channel_id
                    ==> self.received_messages@[i] == old(self).received_messages@[i]);
        }
    }
}

/// Counters over received replication traffic, updated by whoever hosts the
/// receive pass when statistics are wanted.
#[derive(Clone, Copy, Debug, PartialEq, Eq, Structural)]
pub struct ClientReplicationStats {
    /// Entities that changed.
    pub entities_changed: u64,
    /// Components that changed.
    pub components_changed: u64,
    /// Entity mappings learned.
    pub mappings: u64,
    /// Entity despawns applied.
    pub despawns: u64,
    /// Replication messages received.
    pub messages: u64,
    /// Replication bytes received in message payloads.
    pub bytes: u64,
}

impl Default for ClientReplicationStats {
    /// All counters at zero.
    fn default() -> (r: Self)
        ensures
            r == (ClientReplicationStats {
                entities_changed: 0,
                components_changed: 0,
                mappings: 0,
                despawns: 0,
                messages: 0,
                bytes: 0,
            }),
    {
        ClientReplicationStats {
            entities_changed: 0,
            components_changed: 0,
            mappings: 0,
            despawns: 0,
            messages: 0,
            bytes: 0,
        }
    }
}

impl Default for RepliconClient {
    /// A disconnected client with no channels.
    fn default() -> (r: Self)
        ensures
            r.spec_status() == RepliconClientStatus::Disconnected,
            r.spec_received().len() == 0,
            r.spec_sent().len() == 0,
    {
        Self::new()
    }
}

} // verus!
