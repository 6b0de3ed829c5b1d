use replicon_core::acks::ServerMutateTicks;
use replicon_core::applier::{
    apply_mutate_messages, apply_replication, apply_update_message, buffer_mutate_message,
    process_mutate_messages, reset,
};
use replicon_core::buffered::BufferedMutations;
use replicon_core::entity::Entity;
use replicon_core::messages::{
    serialize_mutate_message, serialize_update_message, ComponentChange, EntityChanges,
    EntityRemovals, MutateHeader, MutationEntry, UpdateMessage,
};
use replicon_core::registry::{FnsId, ReplicationRegistry};
use replicon_core::replicon_client::{RepliconClient, RepliconClientStatus};
use replicon_core::server_entity_map::ServerEntityMap;
use replicon_core::shared_bytes::bytes_from_vec;
use replicon_core::tick::RepliconTick;
use replicon_core::world::ClientWorld;

const POSITION: u64 = 10;
const POSITION_LEN: usize = 4;

struct Client {
    world: ClientWorld,
    map: ServerEntityMap,
    update_tick: RepliconTick,
    buffered: BufferedMutations,
    registry: ReplicationRegistry,
    position_fns: FnsId,
}

fn client() -> Client {
    let mut registry = ReplicationRegistry::new();
    let position_fns = registry.register(POSITION, POSITION_LEN);
    Client {
        world: ClientWorld::new(),
        map: ServerEntityMap::new(),
        update_tick: RepliconTick(0),
        buffered: BufferedMutations::new(),
        registry,
        position_fns,
    }
}

fn empty_update(tick: u32) -> UpdateMessage {
    UpdateMessage {
        tick: RepliconTick(tick),
        mappings: vec![],
        despawns: vec![],
        removals: vec![],
        changes: vec![],
    }
}

fn apply(c: &mut Client, msg: &UpdateMessage) {
    // Run the update through its wire form, as a real session would.
    let bytes = serialize_update_message(msg);
    let parsed =
        replicon_core::messages::parse_update_message(&bytes, &c.registry).expect("should decode");
    apply_update_message(&mut c.world, &mut c.map, &mut c.update_tick, &c.registry, &parsed);
}

fn position_value(c: &Client, client_entity: Entity) -> Option<Vec<u8>> {
    let i = c.world.find_entity(client_entity)?;
    let slot = c.world.entity_at(i).get_component(POSITION)?;
    Some(slot.data.clone())
}

#[test]
fn spawn() {
    let mut c = client();
    let server_entity = Entity::new(7, 1);
    let mut msg = empty_update(1);
    msg.changes = vec![EntityChanges { entity: server_entity, components: vec![] }];

    apply(&mut c, &msg);

    assert_eq!(c.world.len(), 1, "client should spawn exactly one entity");
    let client_entity = c
        .map
        .get_by_server(server_entity)
        .expect("server entity should be mapped to a replicated entity on client");
    let i = c.world.find_entity(client_entity).unwrap();
    assert!(c.world.entity_at(i).replicated);
    assert_eq!(
        c.map.to_server.get(&client_entity.to_bits()),
        Some(&server_entity.to_bits()),
        "replicated entity on client should be mapped to a server entity"
    );
    assert_eq!(c.update_tick, RepliconTick(1));
}

#[test]
fn spawn_with_component() {
    let mut c = client();
    let server_entity = Entity::new(7, 1);
    let fns = c.position_fns;
    let mut msg = empty_update(1);
    msg.changes = vec![
        EntityChanges {
            entity: server_entity,
            components: vec![ComponentChange { fns_id: fns, data: vec![1, 2, 3, 4] }],
        },
    ];
    apply(&mut c, &msg);

    let client_entity = c.map.get_by_server(server_entity).unwrap();
    assert_eq!(position_value(&c, client_entity), Some(vec![1, 2, 3, 4]));
    let i = c.world.find_entity(client_entity).unwrap();
    assert!(
        c.world.entity_at(i).confirmed.unwrap().get(RepliconTick(1)),
        "the tick that carried the change is confirmed for the entity"
    );

    // Two ticks later the same component arrives again: no duplicate.
    let mut msg2 = empty_update(3);
    msg2.changes = vec![
        EntityChanges {
            entity: server_entity,
            components: vec![ComponentChange { fns_id: fns, data: vec![9, 9, 9, 9] }],
        },
    ];
    apply(&mut c, &msg2);
    let i = c.world.find_entity(client_entity).unwrap();
    assert_eq!(c.world.entity_at(i).components.len(), 1);
    assert_eq!(position_value(&c, client_entity), Some(vec![9, 9, 9, 9]));
    assert_eq!(c.world.len(), 1);
}

#[test]
fn client_spawn() {
    let mut c = client();
    // The client pre-spawned its own entity and the server honors the hint.
    let client_entity = c.world.spawn(false);
    let server_entity = Entity::new(3, 1);
    let fns = c.position_fns;
    let mut msg = empty_update(1);
    msg.mappings = vec![(server_entity, client_entity)];
    msg.changes = vec![
        EntityChanges {
            entity: server_entity,
            components: vec![ComponentChange { fns_id: fns, data: vec![5, 5, 5, 5] }],
        },
    ];
    apply(&mut c, &msg);

    assert_eq!(
        c.map.to_client.get(&server_entity.to_bits()),
        Some(&client_entity.to_bits()),
        "server entity should be mapped to a replicated entity on client"
    );
    assert_eq!(
        c.map.to_server.get(&client_entity.to_bits()),
        Some(&server_entity.to_bits()),
        "replicated entity on client should be mapped to a server entity"
    );
    let i = c.world.find_entity(client_entity).unwrap();
    assert!(c.world.entity_at(i).replicated, "server should confirm replication of client entity");
    assert_eq!(
        position_value(&c, client_entity),
        Some(vec![5, 5, 5, 5]),
        "component from server should be replicated"
    );
    assert_eq!(c.world.len(), 1, "new entity shouldn't be spawned on client");
}

#[test]
fn despawn() {
    let mut c = client();
    let client_entity = c.world.spawn(true);
    let server_entity = Entity::new(4, 1);
    let mut bind = empty_update(1);
    bind.mappings = vec![(server_entity, client_entity)];
    apply(&mut c, &bind);

    let mut msg = empty_update(2);
    msg.despawns = vec![server_entity];
    apply(&mut c, &msg);

    assert_eq!(c.world.len(), 0);
    assert!(c.map.to_client.is_empty());
    assert!(c.map.to_server.is_empty());
}

#[test]
fn removal() {
    let mut c = client();
    let server_entity = Entity::new(2, 1);
    let fns = c.position_fns;
    let mut msg = empty_update(1);
    msg.changes = vec![
        EntityChanges {
            entity: server_entity,
            components: vec![ComponentChange { fns_id: fns, data: vec![1, 1, 1, 1] }],
        },
    ];
    apply(&mut c, &msg);
    let client_entity = c.map.get_by_server(server_entity).unwrap();
    assert!(position_value(&c, client_entity).is_some());

    let mut msg2 = empty_update(2);
    msg2.removals = vec![EntityRemovals { entity: server_entity, fns_ids: vec![fns] }];
    apply(&mut c, &msg2);

    assert!(position_value(&c, client_entity).is_none());
    let i = c.world.find_entity(client_entity).unwrap();
    let history = c.world.entity_at(i).confirmed.unwrap();
    assert!(history.get(RepliconTick(2)));
    assert_eq!(c.world.len(), 1);
}

#[test]
fn update_tick_is_monotonic() {
    let mut c = client();
    apply(&mut c, &empty_update(5));
    assert_eq!(c.update_tick, RepliconTick(5));
    apply(&mut c, &empty_update(3));
    assert_eq!(c.update_tick, RepliconTick(5), "a stale update tick is ignored");
    apply(&mut c, &empty_update(6));
    assert_eq!(c.update_tick, RepliconTick(6));
}

#[test]
fn apply_twice_has_same_effect_as_once() {
    let mut once = client();
    let mut twice = client();
    let server_entity = Entity::new(1, 1);
    let fns = once.position_fns;
    let mut msg = empty_update(1);
    msg.mappings = vec![];
    msg.changes = vec![
        EntityChanges {
            entity: server_entity,
            components: vec![ComponentChange { fns_id: fns, data: vec![4, 3, 2, 1] }],
        },
    ];
    apply(&mut once, &msg);
    apply(&mut twice, &msg);
    apply(&mut twice, &msg);

    assert_eq!(twice.world.len(), once.world.len());
    let ce = once.map.get_by_server(server_entity).unwrap();
    assert_eq!(twice.map.get_by_server(server_entity), Some(ce));
    assert_eq!(position_value(&twice, ce), position_value(&once, ce));
    let i = twice.world.find_entity(ce).unwrap();
    assert_eq!(twice.world.entity_at(i).components.len(), 1);
}

fn mutate_bytes(update_tick: u32, message_tick: u32, index: u16, entity: Entity, fns: FnsId, value: &[u8]) -> Vec<u8> {
    let mut data = Vec::new();
    replicon_core::codec::write_compact(&mut data, fns.0);
    data.extend_from_slice(value);
    let header = MutateHeader {
        update_tick: RepliconTick(update_tick),
        message_tick: RepliconTick(message_tick),
        messages_count: 1,
        mutate_index: index,
    };
    serialize_mutate_message(&header, &vec![MutationEntry { entity, data }], false)
}

/// Like `mutate_bytes`, but with the fragment count on the wire, as the
/// server writes it when mutate ticks are tracked.
fn tracked_mutate_bytes(
    update_tick: u32,
    message_tick: u32,
    messages_count: u64,
    index: u16,
    entity: Entity,
    fns: FnsId,
    value: &[u8],
) -> Vec<u8> {
    let mut data = Vec::new();
    replicon_core::codec::write_compact(&mut data, fns.0);
    data.extend_from_slice(value);
    let header = MutateHeader {
        update_tick: RepliconTick(update_tick),
        message_tick: RepliconTick(message_tick),
        messages_count,
        mutate_index: index,
    };
    serialize_mutate_message(&header, &vec![MutationEntry { entity, data }], true)
}

#[test]
fn mutate_tick_completes_when_last_fragment_drains() {
    let mut c = client();
    let server_entity = Entity::new(1, 1);
    let fns = c.position_fns;
    let mut msg = empty_update(1);
    msg.changes = vec![EntityChanges { entity: server_entity, components: vec![] }];
    apply(&mut c, &msg);

    // Tick 2 went out in two fragments; each drain confirms one of them.
    let mut ticks = ServerMutateTicks::new();
    let m1 = tracked_mutate_bytes(1, 2, 2, 0, server_entity, fns, &[1, 0, 0, 0]);
    buffer_mutate_message(&mut c.buffered, bytes_from_vec(m1), true).unwrap();
    let (clean, done) = apply_mutate_messages(
        &mut c.world,
        &mut c.map,
        &mut c.buffered,
        &c.registry,
        c.update_tick,
        &mut ticks,
        true,
    );
    assert!(clean);
    assert_eq!(done, vec![], "one fragment of two is no completion");

    let m2 = tracked_mutate_bytes(1, 2, 2, 1, server_entity, fns, &[2, 0, 0, 0]);
    buffer_mutate_message(&mut c.buffered, bytes_from_vec(m2), true).unwrap();
    let (clean, done) = apply_mutate_messages(
        &mut c.world,
        &mut c.map,
        &mut c.buffered,
        &c.registry,
        c.update_tick,
        &mut ticks,
        true,
    );
    assert!(clean);
    assert_eq!(done, vec![RepliconTick(2)], "the last fragment completes the tick");
}

#[test]
fn out_of_order_mutation_is_buffered_then_applied() {
    let mut c = client();
    let server_entity = Entity::new(1, 1);
    let fns = c.position_fns;

    // Update for tick 100 spawns the entity with its first value.
    let mut msg = empty_update(100);
    msg.changes = vec![
        EntityChanges {
            entity: server_entity,
            components: vec![ComponentChange { fns_id: fns, data: vec![100, 0, 0, 0] }],
        },
    ];
    apply(&mut c, &msg);
    let ce = c.map.get_by_server(server_entity).unwrap();

    // The mutation for tick 101 arrives before the update for tick 101.
    let mutation = mutate_bytes(101, 101, 0, server_entity, fns, &[101, 0, 0, 0]);
    buffer_mutate_message(&mut c.buffered, bytes_from_vec(mutation), false).unwrap();
    assert!(
        apply_mutate_messages(
            &mut c.world,
            &mut c.map,
            &mut c.buffered,
            &c.registry,
            c.update_tick,
            &mut ServerMutateTicks::new(),
            false,
        )
        .0
    );
    assert_eq!(c.buffered.len(), 1, "the mutation must stay buffered");
    assert_eq!(position_value(&c, ce), Some(vec![100, 0, 0, 0]));

    // The update for tick 101 arrives; the buffered mutation drains.
    apply(&mut c, &empty_update(101));
    assert!(
        apply_mutate_messages(
            &mut c.world,
            &mut c.map,
            &mut c.buffered,
            &c.registry,
            c.update_tick,
            &mut ServerMutateTicks::new(),
            false,
        )
        .0
    );
    assert_eq!(c.buffered.len(), 0);
    assert_eq!(position_value(&c, ce), Some(vec![101, 0, 0, 0]));
}

#[test]
fn stale_mutation_is_dropped() {
    let mut c = client();
    let server_entity = Entity::new(1, 1);
    let fns = c.position_fns;
    let mut msg = empty_update(200);
    msg.changes = vec![
        EntityChanges {
            entity: server_entity,
            components: vec![ComponentChange { fns_id: fns, data: vec![200, 0, 0, 0] }],
        },
    ];
    apply(&mut c, &msg);
    let ce = c.map.get_by_server(server_entity).unwrap();

    let mutation = mutate_bytes(50, 50, 0, server_entity, fns, &[50, 0, 0, 0]);
    buffer_mutate_message(&mut c.buffered, bytes_from_vec(mutation), false).unwrap();
    let (clean, _) = apply_mutate_messages(
        &mut c.world,
        &mut c.map,
        &mut c.buffered,
        &c.registry,
        c.update_tick,
        &mut ServerMutateTicks::new(),
        false,
    );

    assert!(clean, "a stale mutation is no error");
    assert_eq!(c.buffered.len(), 0, "the stale mutation is consumed");
    assert_eq!(position_value(&c, ce), Some(vec![200, 0, 0, 0]), "the value must not change");
}

#[test]
fn history_consumer_takes_old_mutation() {
    let mut c = client();
    let server_entity = Entity::new(1, 1);
    let fns = c.position_fns;
    let mut msg = empty_update(200);
    msg.changes = vec![
        EntityChanges {
            entity: server_entity,
            components: vec![ComponentChange { fns_id: fns, data: vec![200, 0, 0, 0] }],
        },
    ];
    apply(&mut c, &msg);
    let ce = c.map.get_by_server(server_entity).unwrap();
    let i = c.world.find_entity(ce).unwrap();
    c.world.set_needs_history(i, true);

    // Ten ticks behind the entity's last confirmed tick.
    let mutation = mutate_bytes(190, 190, 0, server_entity, fns, &[190, 0, 0, 0]);
    buffer_mutate_message(&mut c.buffered, bytes_from_vec(mutation), false).unwrap();
    assert!(
        apply_mutate_messages(
            &mut c.world,
            &mut c.map,
            &mut c.buffered,
            &c.registry,
            c.update_tick,
            &mut ServerMutateTicks::new(),
            false,
        )
        .0
    );

    let i = c.world.find_entity(ce).unwrap();
    let history = c.world.entity_at(i).confirmed.unwrap();
    assert!(history.get(RepliconTick(190)), "bit ten of the history mask is set");
    assert!(!history.get(RepliconTick(191)));
    assert_eq!(
        position_value(&c, ce),
        Some(vec![200, 0, 0, 0]),
        "a newer value is not clobbered by the old mutation"
    );
}

#[test]
fn acknowledgment_for_every_mutate_message() {
    let mut buffered = BufferedMutations::new();
    let e = Entity::new(1, 1);
    let m1 = mutate_bytes(1, 1, 3, e, FnsId(0), &[]);
    let m2 = mutate_bytes(1, 2, 7, e, FnsId(0), &[]);
    let messages = vec![bytes_from_vec(m1), bytes_from_vec(m2)];
    let acks = process_mutate_messages(&mut buffered, &messages, false).unwrap();
    assert_eq!(acks, vec![3, 0, 7, 0], "each received index comes back, in order");
    assert_eq!(buffered.len(), 2);
}

#[test]
fn receive_pass_over_channels() {
    let mut c = client();
    let mut transport = RepliconClient::new();
    transport.setup_server_channels(2);
    transport.set_status(RepliconClientStatus::Connected { client_id: None });

    let server_entity = Entity::new(1, 1);
    let fns = c.position_fns;
    let mut msg = empty_update(1);
    msg.changes = vec![
        EntityChanges {
            entity: server_entity,
            components: vec![ComponentChange { fns_id: fns, data: vec![1, 0, 0, 0] }],
        },
    ];
    transport.insert_received(0, bytes_from_vec(serialize_update_message(&msg)));
    transport.insert_received(
        1,
        bytes_from_vec(mutate_bytes(1, 2, 4, server_entity, fns, &[2, 0, 0, 0])),
    );

    apply_replication(
        &mut c.world,
        &mut c.map,
        &mut c.update_tick,
        &mut c.buffered,
        &c.registry,
        &mut transport,
        &mut ServerMutateTicks::new(),
        &mut Vec::new(),
        false,
    )
    .unwrap();

    let ce = c.map.get_by_server(server_entity).unwrap();
    assert_eq!(position_value(&c, ce), Some(vec![2, 0, 0, 0]), "the ripe mutation applies");
    let sent = transport.drain_sent();
    assert_eq!(sent.len(), 1, "one acknowledgment packet goes back");
    assert_eq!(sent[0].0, 0, "acknowledgments travel on the reliable channel");
    assert_eq!(sent[0].1.as_ref(), &[4, 0], "the mutate index is acknowledged");
}

#[test]
fn reset_clears_session_state() {
    let mut c = client();
    let server_entity = Entity::new(1, 1);
    let mut msg = empty_update(5);
    msg.changes = vec![EntityChanges { entity: server_entity, components: vec![] }];
    apply(&mut c, &msg);
    let mutation = mutate_bytes(9, 9, 0, server_entity, FnsId(0), &[]);
    buffer_mutate_message(&mut c.buffered, bytes_from_vec(mutation), false).unwrap();

    reset(&mut c.update_tick, &mut c.map, &mut c.buffered);

    assert_eq!(c.update_tick, RepliconTick(0));
    assert!(c.map.is_empty());
    assert_eq!(c.buffered.len(), 0);
}

#[test]
fn despawn_then_mutation_is_ignored() {
    let mut c = client();
    let server_entity = Entity::new(1, 1);
    let fns = c.position_fns;
    let mut msg = empty_update(1);
    msg.changes = vec![EntityChanges { entity: server_entity, components: vec![] }];
    apply(&mut c, &msg);
    let mut msg2 = empty_update(2);
    msg2.despawns = vec![server_entity];
    apply(&mut c, &msg2);

    let mutation = mutate_bytes(1, 3, 0, server_entity, fns, &[1, 0, 0, 0]);
    buffer_mutate_message(&mut c.buffered, bytes_from_vec(mutation), false).unwrap();
    let (clean, _) = apply_mutate_messages(
        &mut c.world,
        &mut c.map,
        &mut c.buffered,
        &c.registry,
        c.update_tick,
        &mut ServerMutateTicks::new(),
        false,
    );
    assert!(clean, "a mutation for a despawned entity is not fatal");
    assert_eq!(c.world.len(), 0);
}
