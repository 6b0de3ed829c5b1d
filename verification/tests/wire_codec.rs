use replicon_core::builder::build_mutate_messages;
use replicon_core::codec::{
    read_compact, read_u16_le, read_u32_le, read_u64_le, read_varint, write_compact, write_u16_le,
    write_u32_le, write_varint, DecodeError,
};
use replicon_core::entity::Entity;
use replicon_core::entity_serde::{deserialize_entity, serialize_entity};
use replicon_core::messages::{
    parse_mutate_header, parse_mutations, parse_update_message, serialize_mutate_message,
    serialize_update_message, ComponentChange, EntityChanges, EntityRemovals, MutateHeader,
    MutationEntry, UpdateMessage,
};
use replicon_core::registry::{FnsId, ReplicationRegistry};
use replicon_core::tick::RepliconTick;

#[test]
fn varint_exact_bytes() {
    let mut buf = Vec::new();
    write_varint(&mut buf, 0);
    write_varint(&mut buf, 127);
    write_varint(&mut buf, 300);
    assert_eq!(buf, vec![0, 127, 0xAC, 0x02]);

    let (v, p) = read_varint(&buf, 2).unwrap();
    assert_eq!(v, 300);
    assert_eq!(p, 4);
}

#[test]
fn varint_round_trip_large() {
    let mut buf = Vec::new();
    write_varint(&mut buf, u64::MAX);
    let (v, p) = read_varint(&buf, 0).unwrap();
    assert_eq!(v, u64::MAX);
    assert_eq!(p, 10);
}

#[test]
fn varint_errors() {
    assert_eq!(read_varint(&[0x80], 0), Err(DecodeError::UnexpectedEnd));
    assert_eq!(read_varint(&[0x80; 11], 0), Err(DecodeError::MalformedVarint));
    assert_eq!(read_varint(&[], 0), Err(DecodeError::UnexpectedEnd));
}

#[test]
fn compact_exact_bytes() {
    let mut buf = Vec::new();
    write_compact(&mut buf, 7);
    write_compact(&mut buf, 250);
    write_compact(&mut buf, 251);
    write_compact(&mut buf, 0x1_0000);
    assert_eq!(buf, vec![7, 250, 251, 251, 0, 252, 0, 0, 1, 0]);

    assert_eq!(read_compact(&buf, 0).unwrap(), (7, 1));
    assert_eq!(read_compact(&buf, 2).unwrap(), (251, 5));
    assert_eq!(read_compact(&buf, 5).unwrap(), (0x1_0000, 10));
    assert_eq!(read_compact(&[254], 0), Err(DecodeError::MalformedVarint));
    assert_eq!(read_compact(&[251, 1], 0), Err(DecodeError::UnexpectedEnd));
}

#[test]
fn fixed_width_round_trips() {
    let mut buf = Vec::new();
    write_u16_le(&mut buf, 0xBEEF);
    write_u32_le(&mut buf, 0xDEAD_BEEF);
    assert_eq!(buf, vec![0xEF, 0xBE, 0xEF, 0xBE, 0xAD, 0xDE]);
    assert_eq!(read_u16_le(&buf, 0).unwrap(), (0xBEEF, 2));
    assert_eq!(read_u32_le(&buf, 2).unwrap(), (0xDEAD_BEEF, 6));
    assert_eq!(read_u64_le(&buf, 0), Err(DecodeError::UnexpectedEnd));
}

#[test]
fn entity_round_trip() {
    for &(index, generation) in
        &[(0u32, 0u32), (1, 0), (5, 1), (12345, 77), (0x7FFF_FFFF, u32::MAX)] {
        let e = Entity::new(index, generation);
        let mut buf = Vec::new();
        serialize_entity(&mut buf, e);
        let (back, end) = deserialize_entity(&buf, 0).unwrap();
        assert_eq!(back, e);
        assert_eq!(end, buf.len());
    }
}

#[test]
fn entity_zero_generation_is_compact() {
    let mut buf = Vec::new();
    serialize_entity(&mut buf, Entity::new(3, 0));
    assert_eq!(buf, vec![6]);

    let mut buf = Vec::new();
    serialize_entity(&mut buf, Entity::new(3, 2));
    assert_eq!(buf, vec![7, 2]);
}

#[test]
fn entity_errors() {
    assert_eq!(deserialize_entity(&[], 0), Err(DecodeError::UnexpectedEnd));
    assert_eq!(deserialize_entity(&[1], 0), Err(DecodeError::UnexpectedEnd));
}

fn registry_with_one(len: usize) -> ReplicationRegistry {
    let mut registry = ReplicationRegistry::new();
    registry.register(42, len);
    registry
}

#[test]
fn update_message_round_trip() {
    let registry = registry_with_one(2);
    let msg = UpdateMessage {
        tick: RepliconTick(9),
        mappings: vec![(Entity::new(1, 1), Entity::new(2, 0))],
        despawns: vec![Entity::new(3, 0)],
        removals: vec![EntityRemovals { entity: Entity::new(4, 0), fns_ids: vec![FnsId(0)] }],
        changes: vec![
            EntityChanges {
                entity: Entity::new(5, 0),
                components: vec![ComponentChange { fns_id: FnsId(0), data: vec![7, 8] }],
            },
        ],
    };
    let bytes = serialize_update_message(&msg);
    assert_eq!(bytes[0], 0b1111);
    let back = parse_update_message(&bytes, &registry).unwrap();
    assert_eq!(back.tick, RepliconTick(9));
    assert_eq!(back.mappings, msg.mappings);
    assert_eq!(back.despawns, msg.despawns);
    assert_eq!(back.removals.len(), 1);
    assert_eq!(back.removals[0].fns_ids, vec![FnsId(0)]);
    assert_eq!(back.changes.len(), 1);
    assert_eq!(back.changes[0].components[0].data, vec![7, 8]);
}

#[test]
fn update_message_last_array_is_dynamic() {
    let registry = registry_with_one(0);
    // Only despawns: one flags byte, four tick bytes, then the bare element.
    let msg = UpdateMessage {
        tick: RepliconTick(1),
        mappings: vec![],
        despawns: vec![Entity::new(1, 0)],
        removals: vec![],
        changes: vec![],
    };
    let bytes = serialize_update_message(&msg);
    assert_eq!(bytes, vec![0b10, 1, 0, 0, 0, 2]);
    let back = parse_update_message(&bytes, &registry).unwrap();
    assert_eq!(back.despawns, vec![Entity::new(1, 0)]);
}

#[test]
fn update_message_unknown_fns_is_rejected() {
    let registry = ReplicationRegistry::new();
    let msg = UpdateMessage {
        tick: RepliconTick(1),
        mappings: vec![],
        despawns: vec![],
        removals: vec![],
        changes: vec![
            EntityChanges {
                entity: Entity::new(5, 0),
                components: vec![ComponentChange { fns_id: FnsId(0), data: vec![] }],
            },
        ],
    };
    let bytes = serialize_update_message(&msg);
    let err = parse_update_message(&bytes, &registry).map(|_| ()).unwrap_err();
    assert_eq!(err, DecodeError::UnknownFnsId);
}

#[test]
fn update_message_truncated_is_rejected() {
    let registry = registry_with_one(2);
    let err = parse_update_message(&[0b1000, 1, 0], &registry).map(|_| ()).unwrap_err();
    assert_eq!(err, DecodeError::UnexpectedEnd);
}

#[test]
fn mutate_message_round_trip_with_tracking() {
    let header = MutateHeader {
        update_tick: RepliconTick(4),
        message_tick: RepliconTick(6),
        messages_count: 2,
        mutate_index: 9,
    };
    let entries = vec![MutationEntry { entity: Entity::new(1, 0), data: vec![1, 2, 3] }];
    let bytes = serialize_mutate_message(&header, &entries, true);
    let (back, pos) = parse_mutate_header(&bytes, true).unwrap();
    assert_eq!(back, header);
    let back_entries = parse_mutations(&bytes, pos).unwrap();
    assert_eq!(back_entries.len(), 1);
    assert_eq!(back_entries[0].entity, Entity::new(1, 0));
    assert_eq!(back_entries[0].data, vec![1, 2, 3]);
}

#[test]
fn mutate_message_round_trip_without_tracking() {
    let header = MutateHeader {
        update_tick: RepliconTick(4),
        message_tick: RepliconTick(6),
        messages_count: 1,
        mutate_index: 0,
    };
    let entries = vec![MutationEntry { entity: Entity::new(2, 0), data: vec![] }];
    let with = serialize_mutate_message(&header, &entries, true);
    let without = serialize_mutate_message(&header, &entries, false);
    // The fragment count is present only when tracking is on.
    assert_eq!(with.len(), without.len() + 1);
    let (back, pos) = parse_mutate_header(&without, false).unwrap();
    assert_eq!(back.messages_count, 1);
    assert_eq!(parse_mutations(&without, pos).unwrap().len(), 1);
}

#[test]
fn mutations_fragment_along_mtu() {
    let entries = vec![
        MutationEntry { entity: Entity::new(1, 0), data: vec![1; 20] },
        MutationEntry { entity: Entity::new(2, 0), data: vec![2; 20] },
        MutationEntry { entity: Entity::new(3, 0), data: vec![3; 20] },
    ];
    let msgs = build_mutate_messages(RepliconTick(4), RepliconTick(5), entries, 30, true);
    assert_eq!(msgs.len(), 3, "each oversized entry travels alone");
    for (k, (index, bytes)) in msgs.iter().enumerate() {
        assert_eq!(*index, k as u16);
        let (header, pos) = parse_mutate_header(bytes, true).unwrap();
        assert_eq!(header.update_tick, RepliconTick(4));
        assert_eq!(header.message_tick, RepliconTick(5));
        assert_eq!(header.messages_count, 3);
        assert_eq!(header.mutate_index, k as u16);
        assert_eq!(parse_mutations(bytes, pos).unwrap().len(), 1);
    }

    let entries = vec![
        MutationEntry { entity: Entity::new(1, 0), data: vec![1; 4] },
        MutationEntry { entity: Entity::new(2, 0), data: vec![2; 4] },
    ];
    let msgs = build_mutate_messages(RepliconTick(4), RepliconTick(5), entries, 1000, false);
    assert_eq!(msgs.len(), 1, "small mutations share one message");
    let (header, pos) = parse_mutate_header(&msgs[0].1, false).unwrap();
    assert_eq!(header.mutate_index, 0);
    assert_eq!(parse_mutations(&msgs[0].1, pos).unwrap().len(), 2);
}
