use replicon_core::acks::{MutateTickTracker, ServerMutateTicks};
use replicon_core::buffer::ReplicationBuffer;
use replicon_core::channels::ReplicationChannel;
use replicon_core::connected_clients::ConnectedClients;
use replicon_core::entity::Entity;
use replicon_core::replicon_client::{ClientId, RepliconClient, RepliconClientStatus};
use replicon_core::replicon_server::RepliconServer;
use replicon_core::server_entity_map::ServerEntityMap;
use replicon_core::shared_bytes::bytes_from_vec;
use replicon_core::tick::RepliconTick;

#[test]
fn channel_indices() {
    assert_eq!(ReplicationChannel::Updates.index(), 0);
    assert_eq!(ReplicationChannel::Mutations.index(), 1);
}

#[test]
fn client_drops_traffic_while_disconnected() {
    let mut client = RepliconClient::new();
    client.setup_server_channels(2);
    assert!(client.is_disconnected());

    client.insert_received(0, bytes_from_vec(vec![1]));
    client.send(0, bytes_from_vec(vec![2]));
    assert_eq!(client.received_count(0), 0);
    assert_eq!(client.drain_sent().len(), 0);
}

#[test]
fn client_receive_drains_one_channel() {
    let mut client = RepliconClient::new();
    client.setup_server_channels(2);
    client.set_status(RepliconClientStatus::Connected { client_id: Some(ClientId(9)) });
    assert!(client.is_connected());
    assert_eq!(client.id(), Some(ClientId(9)));

    client.insert_received(0, bytes_from_vec(vec![1]));
    client.insert_received(1, bytes_from_vec(vec![2]));
    let msgs = client.receive(0);
    assert_eq!(msgs.len(), 1);
    assert_eq!(msgs[0].as_ref(), &[1]);
    assert_eq!(client.received_count(0), 0);
    assert_eq!(client.received_count(1), 1);
}

#[test]
fn client_disconnect_discards_messages() {
    let mut client = RepliconClient::new();
    client.setup_server_channels(1);
    client.set_status(RepliconClientStatus::Connected { client_id: None });
    client.insert_received(0, bytes_from_vec(vec![1]));
    client.send(0, bytes_from_vec(vec![2]));

    client.set_status(RepliconClientStatus::Disconnected);

    assert_eq!(client.received_count(0), 0);
    assert_eq!(client.drain_sent().len(), 0);
    assert!(client.is_disconnected());
    assert!(!client.is_connecting());
}

#[test]
fn server_message_flow() {
    let mut server = RepliconServer::new();
    server.setup_channels(2, 2);
    server.set_running(true);
    assert!(server.is_running());

    let id = ClientId(5);
    server.add_client(id);
    server.insert_received(id, bytes_from_vec(vec![7]), 1);
    let got = server.receive(id, 1).expect("the message should be there");
    assert_eq!(got.as_ref(), &[7]);
    assert!(server.receive(id, 1).is_none());

    server.send(id, 0, bytes_from_vec(vec![8]));
    let sent = server.iter_sent_mut();
    assert_eq!(sent.len(), 2);
    assert_eq!(sent[0].len(), 1);
    assert_eq!(sent[0][0].0, id);
    assert_eq!(sent[0][0].1.as_ref(), &[8]);

    server.send(id, 0, bytes_from_vec(vec![9]));
    server.set_running(false);
    assert_eq!(server.iter_sent_mut()[0].len(), 0, "stopping discards queued messages");
}

#[test]
fn remove_client_purges_its_queued_messages() {
    let mut server = RepliconServer::new();
    server.setup_channels(2, 2);
    server.set_running(true);
    let gone = ClientId(5);
    let kept = ClientId(6);
    server.add_client(gone);
    server.add_client(kept);
    server.insert_received(gone, bytes_from_vec(vec![1]), 0);
    server.send(gone, 0, bytes_from_vec(vec![2]));
    server.send(kept, 0, bytes_from_vec(vec![3]));
    server.send(gone, 1, bytes_from_vec(vec![4]));

    server.remove_client(gone);

    assert!(server.receive(gone, 0).is_none(), "receive storage is dropped");
    let sent = server.iter_sent_mut();
    assert_eq!(sent[0].len(), 1, "only the other client's message stays queued");
    assert_eq!(sent[0][0].0, kept);
    assert_eq!(sent[0][0].1.as_ref(), &[3]);
    assert_eq!(sent[1].len(), 0);
}

#[test]
fn connected_clients_add_remove() {
    let mut clients = ConnectedClients::new(true);
    assert!(clients.replicate_after_connect());
    clients.add(ClientId(1));
    clients.add(ClientId(2));
    assert_eq!(clients.len(), 2);
    clients.remove(ClientId(1));
    assert_eq!(clients.len(), 1);
    assert_eq!(clients.clients[0], ClientId(2));
}

#[test]
fn entity_map_bijection() {
    let mut map = ServerEntityMap::new();
    let s1 = Entity::new(1, 1);
    let c1 = Entity::new(10, 0);
    let c2 = Entity::new(11, 0);
    map.insert(s1, c1);
    assert_eq!(map.get_by_server(s1), Some(c1));
    assert_eq!(map.len(), 1);

    // Rebinding the server entity unmaps the stale client pair.
    map.insert(s1, c2);
    assert_eq!(map.get_by_server(s1), Some(c2));
    assert_eq!(map.len(), 1);
    assert!(map.to_server.get(&c1.to_bits()).is_none());

    assert_eq!(map.remove_by_server(s1), Some(c2));
    assert!(map.is_empty());
    assert_eq!(map.remove_by_server(s1), None);
}

#[test]
fn mutate_ticks_complete_once_all_fragments_arrive() {
    let mut ticks = ServerMutateTicks::new();
    assert!(!ticks.confirm(RepliconTick(4), 2));
    assert!(ticks.confirm(RepliconTick(4), 2));
    assert!(ticks.confirm(RepliconTick(5), 1));
    ticks.clear();
    assert!(!ticks.confirm(RepliconTick(4), 2));
}

#[test]
fn tracker_advances_acked_tick() {
    let mut tracker = MutateTickTracker::new();
    tracker.register(0, RepliconTick(10));
    tracker.register(1, RepliconTick(10));
    assert_eq!(tracker.acknowledge(0), None, "one fragment is still outstanding");
    assert_eq!(tracker.acknowledge(0), None, "a duplicate ack changes nothing");
    assert_eq!(tracker.acknowledge(1), Some(RepliconTick(10)));
    assert_eq!(tracker.acked_update_tick, RepliconTick(10));

    // A full packet of two indices for one older tick: it completes but the
    // acked tick does not move backwards.
    tracker.register(2, RepliconTick(8));
    let done = tracker.process_acks(&[2, 0]);
    assert_eq!(done, vec![RepliconTick(8)]);
    assert_eq!(tracker.acked_update_tick, RepliconTick(10));
}

#[test]
fn shared_buffer_reuses_last_write() {
    let mut buf = ReplicationBuffer::new();
    let first = buf.write(&vec![1, 2, 3]);
    assert_eq!(first, (0, 3));

    let shared = buf.get_or_write(&vec![4, 5]);
    assert_eq!(shared, (3, 5));
    let again = buf.get_or_write(&vec![9, 9, 9]);
    assert_eq!(again, shared, "the open range is shared instead of rewritten");

    buf.end_write();
    let fresh = buf.get_or_write(&vec![6]);
    assert_eq!(fresh, (5, 6));

    let bytes = buf.iter_ranges(&vec![(0, 2), (3, 5)]);
    assert_eq!(bytes, vec![1, 2, 4, 5]);

    buf.clear();
    let reused = buf.write(&vec![7]);
    assert_eq!(reused, (0, 1));
    assert_eq!(buf.iter_ranges(&vec![(0, 1)]), vec![7]);
}
