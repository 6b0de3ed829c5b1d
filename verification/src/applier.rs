use vstd::prelude::*;

verus! {

use crate::confirmed::Confirmed;
use crate::entity::Entity;
use crate::messages::{UpdateMessage, UpdateMessageView, EntityRemovals, EntityChanges};
use crate::registry::{FnsId, FnsEntry, ReplicationRegistry};
use crate::server_entity_map::{
    ServerEntityMap, maps_wf, map_insert_to_client, map_insert_to_server, entity_of_bits,
    lemma_entity_bits_inverse,
};
use crate::tick::{RepliconTick, tick_gt, tick_max};
use crate::world::{
    ClientWorld, ClientWorldView, WorldEntityView, ComponentSlotView, world_wf, entity_wf,
    spec_find, spec_fresh_entity, spec_confirm_opt, spec_set_slot, spec_remove_slot,
    lemma_spec_find,
};

/// Everything an update message acts on: the client's world, the two
/// directions of the entity map, and the last seen update tick.
#[verifier::ext_equal]
pub ghost struct ApplyState {
    pub world: ClientWorldView,
    pub to_client: Map<u64, u64>,
    pub to_server: Map<u64, u64>,
    pub update_tick: RepliconTick,
}

/// The world and the map are each well formed.
pub open spec fn state_wf(s: ApplyState) -> bool {
    world_wf(s.world) && maps_wf(s.to_client, s.to_server)
}

/// One MAPPINGS element: when the named client entity still exists, it gains
/// the replication marker and the pair is bound in both directions; a stale
/// hint for a gone entity is dropped.
pub open spec fn spec_apply_mapping(s: ApplyState, m: (Entity, Entity)) -> ApplyState {
    let ci = spec_find(s.world.entities, m.1);
    if ci >= 0 {
        let e2 = WorldEntityView { replicated: true, ..s.world.entities[ci] };
        ApplyState {
            world: ClientWorldView { entities: s.world.entities.update(ci, e2), ..s.world },
            to_client: map_insert_to_client(s.to_client, s.to_server, m.0.spec_bits(), m.1.spec_bits()),
            to_server: map_insert_to_server(s.to_client, s.to_server, m.0.spec_bits(), m.1.spec_bits()),
            ..s
        }
    } else {
        s
    }
}

/// One DESPAWNS element: the pair leaves the map and the client entity, if
/// it still exists, leaves the world. A despawn for an unmapped entity may
/// repeat an earlier message and changes nothing.
pub open spec fn spec_apply_despawn(s: ApplyState, se: Entity) -> ApplyState {
    if s.to_client.contains_key(se.spec_bits()) {
        let cb = s.to_client[se.spec_bits()];
        let ci = spec_find(s.world.entities, entity_of_bits(cb));
        let w = if ci >= 0 {
            ClientWorldView { entities: s.world.entities.remove(ci), ..s.world }
        } else {
            s.world
        };
        ApplyState {
            world: w,
            to_client: s.to_client.remove(se.spec_bits()),
            to_server: s.to_server.remove(cb),
            ..s
        }
    } else {
        s
    }
}

/// Where a server entity's data lands: an existing mapped entity, a freshly
/// spawned one for a first mention, or nowhere when the mapped entity was
/// despawned locally.
#[verifier::ext_equal]
pub ghost struct Resolved {
    pub state: ApplyState,
    pub index: int,
    pub ok: bool,
}

pub open spec fn spec_resolve(s: ApplyState, se: Entity) -> Resolved {
    if s.to_client.contains_key(se.spec_bits()) {
        let ci = spec_find(s.world.entities, entity_of_bits(s.to_client[se.spec_bits()]));
        if ci >= 0 {
            Resolved { state: s, index: ci, ok: true }
        } else {
            Resolved { state: s, index: -1, ok: false }
        }
    } else if s.world.next_index < 0xFFFF_FFFF {
        let id = Entity { index: s.world.next_index, generation: 0 };
        let w = ClientWorldView {
            entities: s.world.entities.push(spec_fresh_entity(s.world.next_index, true)),
            next_index: (s.world.next_index + 1) as u32,
        };
        Resolved {
            state: ApplyState {
                world: w,
                to_client: map_insert_to_client(s.to_client, s.to_server, se.spec_bits(), id.spec_bits()),
                to_server: map_insert_to_server(s.to_client, s.to_server, se.spec_bits(), id.spec_bits()),
                ..s
            },
            index: s.world.entities.len() as int,
            ok: true,
        }
    } else {
        // The identifier space is exhausted: the data has nowhere to land.
        Resolved { state: s, index: -1, ok: false }
    }
}

/// The components left after removing each listed function set's component.
/// An id the registry does not know is passed over.
pub open spec fn spec_remove_fns(
    cs: Seq<ComponentSlotView>,
    ids: Seq<FnsId>,
    reg: Seq<FnsEntry>,
) -> Seq<ComponentSlotView>
    decreases ids.len(),
{
    if ids.len() == 0 {
        cs
    } else {
        let cs1 = if ids[0].0 < reg.len() {
            spec_remove_slot(cs, reg[ids[0].0 as int].component_id)
        } else {
            cs
        };
        spec_remove_fns(cs1, ids.skip(1), reg)
    }
}

/// The components after writing each listed value at `tick`.
pub open spec fn spec_write_components(
    cs: Seq<ComponentSlotView>,
    comps: Seq<(FnsId, Seq<u8>)>,
    reg: Seq<FnsEntry>,
    tick: RepliconTick,
) -> Seq<ComponentSlotView>
    decreases comps.len(),
{
    if comps.len() == 0 {
        cs
    } else {
        let cs1 = if comps[0].0.0 < reg.len() {
            spec_set_slot(
                cs,
                ComponentSlotView {
                    component_id: reg[comps[0].0.0 as int].component_id,
                    data: comps[0].1,
                    tick,
                },
            )
        } else {
            cs
        };
        spec_write_components(cs1, comps.skip(1), reg, tick)
    }
}

/// One REMOVALS element: resolve the entity, confirm the message tick on it,
/// then drop the listed components.
pub open spec fn spec_apply_removal(
    s: ApplyState,
    rm: (Entity, Seq<FnsId>),
    reg: Seq<FnsEntry>,
    tick: RepliconTick,
) -> ApplyState {
    let r = spec_resolve(s, rm.0);
    if !r.ok {
        r.state
    } else {
        let e = r.state.world.entities[r.index];
        let e2 = WorldEntityView {
            confirmed: Some(spec_confirm_opt(e.confirmed, tick)),
            components: spec_remove_fns(e.components, rm.1, reg),
            ..e
        };
        ApplyState {
            world: ClientWorldView {
                entities: r.state.world.entities.update(r.index, e2),
                ..r.state.world
            },
            ..r.state
        }
    }
}

/// One CHANGES element: resolve the entity, confirm the message tick on it,
/// then write the listed component values.
pub open spec fn spec_apply_change(
    s: ApplyState,
    ch: (Entity, Seq<(FnsId, Seq<u8>)>),
    reg: Seq<FnsEntry>,
    tick: RepliconTick,
) -> ApplyState {
    let r = spec_resolve(s, ch.0);
    if !r.ok {
        r.state
    } else {
        let e = r.state.world.entities[r.index];
        let e2 = WorldEntityView {
            confirmed: Some(spec_confirm_opt(e.confirmed, tick)),
            components: spec_write_components(e.components, ch.1, reg, tick),
            ..e
        };
        ApplyState {
            world: ClientWorldView {
                entities: r.state.world.entities.update(r.index, e2),
                ..r.state.world
            },
            ..r.state
        }
    }
}

pub open spec fn spec_apply_mappings(s: ApplyState, ms: Seq<(Entity, Entity)>) -> ApplyState
    decreases ms.len(),
{
    if ms.len() == 0 {
        s
    } else {
        spec_apply_mappings(spec_apply_mapping(s, ms[0]), ms.skip(1))
    }
}

pub open spec fn spec_apply_despawns(s: ApplyState, ds: Seq<Entity>) -> ApplyState
    decreases ds.len(),
{
    if ds.len() == 0 {
        s
    } else {
        spec_apply_despawns(spec_apply_despawn(s, ds[0]), ds.skip(1))
    }
}

pub open spec fn spec_apply_removals(
    s: ApplyState,
    rs: Seq<(Entity, Seq<FnsId>)>,
    reg: Seq<FnsEntry>,
    tick: RepliconTick,
) -> ApplyState
    decreases rs.len(),
{
    if rs.len() == 0 {
        s
    } else {
        spec_apply_removals(spec_apply_removal(s, rs[0], reg, tick), rs.skip(1), reg, tick)
    }
}

pub open spec fn spec_apply_changes(
    s: ApplyState,
    cs: Seq<(Entity, Seq<(FnsId, Seq<u8>)>)>,
    reg: Seq<FnsEntry>,
    tick: RepliconTick,
) -> ApplyState
    decreases cs.len(),
{
    if cs.len() == 0 {
        s
    } else {
        spec_apply_changes(spec_apply_change(s, cs[0], reg, tick), cs.skip(1), reg, tick)
    }
}

/// A whole update message: the update tick advances to the message tick if
/// that is newer, then the four groups apply in wire order.
pub open spec fn spec_apply_update(s: ApplyState, m: UpdateMessageView, reg: Seq<FnsEntry>) -> ApplyState {
    let s0 = ApplyState { update_tick: RepliconTick(tick_max(m.tick.0, s.update_tick.0)), ..s };
    let s1 = spec_apply_mappings(s0, m.mappings);
    let s2 = spec_apply_despawns(s1, m.despawns);
    let s3 = spec_apply_removals(s2, m.removals, reg, m.tick);
    spec_apply_changes(s3, m.changes, reg, m.tick)
}

/// The state the exec resources currently form.
pub open spec fn state_of(
    world: ClientWorld,
    map: ServerEntityMap,
    update_tick: RepliconTick,
) -> ApplyState {
    ApplyState {
        world: world@,
        to_client: map.to_client@,
        to_server: map.to_server@,
        update_tick,
    }
}

/// Replacing an entity in place, with its identifier kept and its own
/// invariant intact, keeps the world well formed.
proof fn lemma_wf_update(w: ClientWorldView, i: int, e2: WorldEntityView)
    requires
        world_wf(w),
        0 <= i < w.entities.len(),
        e2.id == w.entities[i].id,
        entity_wf(e2),
    ensures
        world_wf(ClientWorldView { entities: w.entities.update(i, e2), ..w }),
{
}

/// Removing an entity keeps the world well formed.
proof fn lemma_wf_remove(w: ClientWorldView, i: int)
    requires
        world_wf(w),
        0 <= i < w.entities.len(),
    ensures
        world_wf(ClientWorldView { entities: w.entities.remove(i), ..w }),
{
    let es2 = w.entities.remove(i);
    assert forall|a: int, b: int| 0 <= a < b < es2.len() implies es2[a].id != es2[b].id by {
        assert(es2[a] == if a < i {
            w.entities[a]
        } else {
            w.entities[a + 1]
        });
        assert(es2[b] == if b < i {
            w.entities[b]
        } else {
            w.entities[b + 1]
        });
    }
    assert forall|a: int| 0 <= a < es2.len() implies (#[trigger] es2[a]).id.index < w.next_index
        && entity_wf(es2[a]) by {
        assert(es2[a] == if a < i {
            w.entities[a]
        } else {
            w.entities[a + 1]
        });
    }
}

/// Applies one MAPPINGS element.
fn apply_mapping(world: &mut ClientWorld, map: &mut ServerEntityMap, se: Entity, ce: Entity)
    requires
        world_wf(old(world)@),
        old(map).wf(),
    ensures
        ({
            let sn = spec_apply_mapping(state_of(*old(world), *old(map), RepliconTick(0)), (se, ce));
            final(world)@ == sn.world && final(map).to_client@ == sn.to_client
                && final(map).to_server@ == sn.to_server
        }),
        world_wf(final(world)@),
        final(map).wf(),
{
    let ghost so = state_of(*old(world), *old(map), RepliconTick(0));
    match world.find_entity(ce) {
        Some(i) => {
            let ghost es = world@.entities;
            let mut e = world.take_entity(i);
            let ghost e2 = WorldEntityView { replicated: true, ..es[i as int] };
            e.replicated = true;
            world.put_entity(i, e);
            map.insert(se, ce);
            proof {
                assert(world@.entities =~~= es.update(i as int, e2));
                lemma_wf_update(so.world, i as int, e2);
                assert(world@ == spec_apply_mapping(so, (se, ce)).world);
            }
        },
        None => {
        },
    }
}

/// Applies one DESPAWNS element.
fn apply_despawn(world: &mut ClientWorld, map: &mut ServerEntityMap, se: Entity)
    requires
        world_wf(old(world)@),
        old(map).wf(),
    ensures
        ({
            let sn = spec_apply_despawn(state_of(*old(world), *old(map), RepliconTick(0)), se);
            final(world)@ == sn.world && final(map).to_client@ == sn.to_client
                && final(map).to_server@ == sn.to_server
        }),
        world_wf(final(world)@),
        final(map).wf(),
{
    let ghost so = state_of(*old(world), *old(map), RepliconTick(0));
    match map.remove_by_server(se) {
        Some(ce) => {
            match world.find_entity(ce) {
                Some(i) => {
                    proof {
                        lemma_wf_remove(so.world, i as int);
                    }
                    world.despawn_at(i);
                },
                None => {
                },
            }
        },
        None => {
        },
    }
}

/// Finds or spawns the client entity a server entity's data lands on.
fn resolve_or_spawn(world: &mut ClientWorld, map: &mut ServerEntityMap, se: Entity) -> (r: Option<
    usize,
>)
    requires
        world_wf(old(world)@),
        old(map).wf(),
    ensures
        ({
            let rr = spec_resolve(state_of(*old(world), *old(map), RepliconTick(0)), se);
            &&& final(world)@ == rr.state.world
            &&& final(map).to_client@ == rr.state.to_client
            &&& final(map).to_server@ == rr.state.to_server
            &&& (r matches Some(j) <==> rr.ok)
            &&& (r matches Some(j) ==> j as int == rr.index && rr.index
                < final(world)@.entities.len())
        }),
        world_wf(final(world)@),
        final(map).wf(),
{
    let ghost so = state_of(*old(world), *old(map), RepliconTick(0));
    match map.get_by_server(se) {
        Some(ce) => {
            match world.find_entity(ce) {
                Some(i) => Some(i),
                None => None,
            }
        },
        None => {
            if world.next_index < 0xFFFF_FFFF {
                let idx = world.len();
                let id = world.spawn(true);
                map.insert(se, id);
                Some(idx)
            } else {
                None
            }
        },
    }
}

/// Applies one REMOVALS element.
fn apply_removal(
    world: &mut ClientWorld,
    map: &mut ServerEntityMap,
    registry: &ReplicationRegistry,
    tick: RepliconTick,
    rm: &EntityRemovals,
)
    requires
        world_wf(old(world)@),
        old(map).wf(),
    ensures
        ({
            let sn = spec_apply_removal(
                state_of(*old(world), *old(map), RepliconTick(0)),
                rm@,
                registry.entries@,
                tick,
            );
            final(world)@ == sn.world && final(map).to_client@ == sn.to_client
                && final(map).to_server@ == sn.to_server
        }),
        world_wf(final(world)@),
        final(map).wf(),
{
    let ghost so = state_of(*old(world), *old(map), RepliconTick(0));
    let ghost rr = spec_resolve(so, rm.entity);
    match resolve_or_spawn(world, map, rm.entity) {
        None => {
        },
        Some(i) => {
            let ghost es = world@.entities;
            let mut e = world.take_entity(i);
            e.confirm(tick);
            let ghost e1 = WorldEntityView {
                confirmed: Some(spec_confirm_opt(es[i as int].confirmed, tick)),
                ..es[i as int]
            };
            let ghost cs0 = e@.components;
            let ghost ids = rm.fns_ids@;
            proof {
                assert(ids.skip(0) =~= ids);
                assert(entity_wf(e@));
            }
            let mut j: usize = 0;
            while j < rm.fns_ids.len()
                invariant
                    j <= ids.len(),
                    ids == rm.fns_ids@,
                    (i as int) < es.len(),
                    entity_wf(e@),
                    e@.confirmed == e1.confirmed,
                    e@.id == e1.id,
                    e@.replicated == e1.replicated,
                    e@.needs_history == e1.needs_history,
                    e1 == (WorldEntityView {
                        confirmed: Some(spec_confirm_opt(es[i as int].confirmed, tick)),
                        ..es[i as int]
                    }),
                    spec_remove_fns(e@.components, ids.skip(j as int), registry.entries@)
                        == spec_remove_fns(cs0, ids, registry.entries@),
                decreases ids.len() - j,
            {
                proof {
                    assert(ids.skip(j as int)[0] == ids[j as int]);
                    assert(ids.skip(j as int).skip(1) =~= ids.skip(j as int + 1));
                }
                let f = rm.fns_ids[j];
                match registry.get(f) {
                    Some(entry) => {
                        let cid = entry.component_id;
                        e.remove_component(cid);
                    },
                    None => {
                    },
                }
                j = j + 1;
            }
            proof {
                assert(ids.skip(ids.len() as int).len() == 0);
            }
            proof {
                assert(cs0 == es[i as int].components);
                assert(e@.components == spec_remove_fns(
                    es[i as int].components,
                    ids,
                    registry.entries@,
                ));
                assert(e@ == (WorldEntityView {
                    confirmed: Some(spec_confirm_opt(es[i as int].confirmed, tick)),
                    components: spec_remove_fns(es[i as int].components, ids, registry.entries@),
                    ..es[i as int]
                }));
            }
            world.put_entity(i, e);
            proof {
                let e2 = WorldEntityView {
                    confirmed: Some(spec_confirm_opt(es[i as int].confirmed, tick)),
                    components: spec_remove_fns(es[i as int].components, ids, registry.entries@),
                    ..es[i as int]
                };
                assert(world@.entities =~~= es.update(i as int, e2));
                lemma_wf_update(rr.state.world, i as int, e2);
                assert(world@ =~~= spec_apply_removal(so, rm@, registry.entries@, tick).world);
            }
        },
    }
}

/// Applies one CHANGES element.
fn apply_change(
    world: &mut ClientWorld,
    map: &mut ServerEntityMap,
    registry: &ReplicationRegistry,
    tick: RepliconTick,
    ch: &EntityChanges,
)
    requires
        world_wf(old(world)@),
        old(map).wf(),
    ensures
        ({
            let sn = spec_apply_change(
                state_of(*old(world), *old(map), RepliconTick(0)),
                ch@,
                registry.entries@,
                tick,
            );
            final(world)@ == sn.world && final(map).to_client@ == sn.to_client
                && final(map).to_server@ == sn.to_server
        }),
        world_wf(final(world)@),
        final(map).wf(),
{
    let ghost so = state_of(*old(world), *old(map), RepliconTick(0));
    let ghost rr = spec_resolve(so, ch.entity);
    match resolve_or_spawn(world, map, ch.entity) {
        None => {
        },
        Some(i) => {
            let ghost es = world@.entities;
            let mut e = world.take_entity(i);
            e.confirm(tick);
            let ghost e1 = WorldEntityView {
                confirmed: Some(spec_confirm_opt(es[i as int].confirmed, tick)),
                ..es[i as int]
            };
            let ghost cs0 = e@.components;
            let ghost comps = crate::messages::components_view(ch.components@);
            proof {
                assert(comps.skip(0) =~= comps);
                assert(entity_wf(e@));
            }
            let mut j: usize = 0;
            while j < ch.components.len()
                invariant
                    j <= comps.len(),
                    comps == crate::messages::components_view(ch.components@),
                    comps.len() == ch.components@.len(),
                    (i as int) < es.len(),
                    entity_wf(e@),
                    e@.confirmed == e1.confirmed,
                    e@.id == e1.id,
                    e@.replicated == e1.replicated,
                    e@.needs_history == e1.needs_history,
                    e1 == (WorldEntityView {
                        confirmed: Some(spec_confirm_opt(es[i as int].confirmed, tick)),
                        ..es[i as int]
                    }),
                    spec_write_components(e@.components, comps.skip(j as int), registry.entries@, tick)
                        == spec_write_components(cs0, comps, registry.entries@, tick),
                decreases comps.len() - j,
            {
                proof {
                    assert(comps.skip(j as int)[0] == comps[j as int]);
                    assert(comps[j as int] == ch.components@[j as int]@);
                    assert(comps.skip(j as int).skip(1) =~= comps.skip(j as int + 1));
                }
                let f = ch.components[j].fns_id;
                match registry.get(f) {
                    Some(entry) => {
                        let cid = entry.component_id;
                        let value = clone_bytes(&ch.components[j].data);
                        e.set_component(cid, value, tick);
                    },
                    None => {
                    },
                }
                j = j + 1;
            }
            proof {
                assert(comps.skip(comps.len() as int).len() == 0);
            }
            world.put_entity(i, e);
            proof {
                let e2 = WorldEntityView {
                    confirmed: Some(spec_confirm_opt(es[i as int].confirmed, tick)),
                    components: spec_write_components(
                        es[i as int].components,
                        comps,
                        registry.entries@,
                        tick,
                    ),
                    ..es[i as int]
                };
                assert(world@.entities =~~= es.update(i as int, e2));
                lemma_wf_update(rr.state.world, i as int, e2);
            }
        },
    }
}

/// Applies a whole decoded update message to the client's replication state:
/// the update tick advances when the message is newer, then mappings,
/// despawns, removals and changes apply in wire order.
pub fn apply_update_message(
    world: &mut ClientWorld,
    map: &mut ServerEntityMap,
    update_tick: &mut RepliconTick,
    registry: &ReplicationRegistry,
    msg: &UpdateMessage,
)
    requires
        world_wf(old(world)@),
        old(map).wf(),
    ensures
        state_of(*final(world), *final(map), *final(update_tick)) == spec_apply_update(
            state_of(*old(world), *old(map), *old(update_tick)),
            msg@,
            registry.entries@,
        ),
        world_wf(final(world)@),
        final(map).wf(),
{
    let ghost s_in = state_of(*old(world), *old(map), *old(update_tick));
    if msg.tick.is_newer_than(*update_tick) {
        *update_tick = msg.tick;
    }
    let ghost s0 = ApplyState { update_tick: *update_tick, ..s_in };
    let tick = msg.tick;

    let ghost ms = msg.mappings@;
    proof {
        assert(ms.skip(0) =~= ms);
    }
    let mut i: usize = 0;
    while i < msg.mappings.len()
        invariant
            i <= ms.len(),
            ms == msg.mappings@,
            world_wf(world@),
            map.wf(),
            spec_apply_mappings(state_of(*world, *map, *update_tick), ms.skip(i as int))
                == spec_apply_mappings(s0, ms),
        decreases ms.len() - i,
    {
        proof {
            assert(ms.skip(i as int)[0] == ms[i as int]);
            assert(ms.skip(i as int).skip(1) =~= ms.skip(i as int + 1));
        }
        let (se, ce) = msg.mappings[i];
        apply_mapping(world, map, se, ce);
        i = i + 1;
    }
    let ghost s1 = spec_apply_mappings(s0, ms);
    proof {
        assert(ms.skip(ms.len() as int).len() == 0);
        assert(state_of(*world, *map, *update_tick) == s1);
    }

    let ghost ds = msg.despawns@;
    proof {
        assert(ds.skip(0) =~= ds);
    }
    let mut i: usize = 0;
    while i < msg.despawns.len()
        invariant
            i <= ds.len(),
            ds == msg.despawns@,
            world_wf(world@),
            map.wf(),
            spec_apply_despawns(state_of(*world, *map, *update_tick), ds.skip(i as int))
                == spec_apply_despawns(s1, ds),
        decreases ds.len() - i,
    {
        proof {
            assert(ds.skip(i as int)[0] == ds[i as int]);
            assert(ds.skip(i as int).skip(1) =~= ds.skip(i as int + 1));
        }
        let se = msg.despawns[i];
        apply_despawn(world, map, se);
        i = i + 1;
    }
    let ghost s2 = spec_apply_despawns(s1, ds);
    proof {
        assert(ds.skip(ds.len() as int).len() == 0);
        assert(state_of(*world, *map, *update_tick) == s2);
    }

    let ghost rs = crate::messages::removals_view(msg.removals@);
    proof {
        assert(rs.skip(0) =~= rs);
    }
    let mut i: usize = 0;
    while i < msg.removals.len()
        invariant
            i <= rs.len(),
            rs == crate::messages::removals_view(msg.removals@),
            rs.len() == msg.removals@.len(),
            world_wf(world@),
            map.wf(),
            spec_apply_removals(
                state_of(*world, *map, *update_tick),
                rs.skip(i as int),
                registry.entries@,
                tick,
            ) == spec_apply_removals(s2, rs, registry.entries@, tick),
        decreases rs.len() - i,
    {
        proof {
            assert(rs.skip(i as int)[0] == rs[i as int]);
            assert(rs[i as int] == msg.removals@[i as int]@);
            assert(rs.skip(i as int).skip(1) =~= rs.skip(i as int + 1));
        }
        apply_removal(world, map, registry, tick, &msg.removals[i]);
        i = i + 1;
    }
    let ghost s3 = spec_apply_removals(s2, rs, registry.entries@, tick);
    proof {
        assert(rs.skip(rs.len() as int).len() == 0);
        assert(state_of(*world, *map, *update_tick) == s3);
    }

    let ghost cs = crate::messages::changes_view(msg.changes@);
    proof {
        assert(cs.skip(0) =~= cs);
    }
    let mut i: usize = 0;
    while i < msg.changes.len()
        invariant
            i <= cs.len(),
            cs == crate::messages::changes_view(msg.changes@),
            cs.len() == msg.changes@.len(),
            world_wf(world@),
            map.wf(),
            spec_apply_changes(
                state_of(*world, *map, *update_tick),
                cs.skip(i as int),
                registry.entries@,
                tick,
            ) == spec_apply_changes(s3, cs, registry.entries@, tick),
        decreases cs.len() - i,
    {
        proof {
            assert(cs.skip(i as int)[0] == cs[i as int]);
            assert(cs[i as int] == msg.changes@[i as int]@);
            assert(cs.skip(i as int).skip(1) =~= cs.skip(i as int + 1));
        }
        apply_change(world, map, registry, tick, &msg.changes[i]);
        i = i + 1;
    }
    proof {
        assert(cs.skip(cs.len() as int).len() == 0);
        assert(state_of(*world, *map, *update_tick) == spec_apply_changes(
            s3,
            cs,
            registry.entries@,
            tick,
        ));
    }
}

/// No group of an update message moves the seen-update tick: only the
/// message header does.
proof fn lemma_folds_keep_tick(
    s: ApplyState,
    ms: Seq<(Entity, Entity)>,
    ds: Seq<Entity>,
    rs: Seq<(Entity, Seq<FnsId>)>,
    cs: Seq<(Entity, Seq<(FnsId, Seq<u8>)>)>,
    reg: Seq<FnsEntry>,
    tick: RepliconTick,
)
    ensures
        spec_apply_mappings(s, ms).update_tick == s.update_tick,
        spec_apply_despawns(s, ds).update_tick == s.update_tick,
        spec_apply_removals(s, rs, reg, tick).update_tick == s.update_tick,
        spec_apply_changes(s, cs, reg, tick).update_tick == s.update_tick,
    decreases ms.len() + ds.len() + rs.len() + cs.len(),
{
    if ms.len() > 0 {
        lemma_folds_keep_tick(spec_apply_mapping(s, ms[0]), ms.skip(1), ds, rs, cs, reg, tick);
    }
    if ds.len() > 0 {
        lemma_folds_keep_tick(spec_apply_despawn(s, ds[0]), ms, ds.skip(1), rs, cs, reg, tick);
    }
    if rs.len() > 0 {
        lemma_folds_keep_tick(
            spec_apply_removal(s, rs[0], reg, tick),
            ms,
            ds,
            rs.skip(1),
            cs,
            reg,
            tick,
        );
    }
    if cs.len() > 0 {
        lemma_folds_keep_tick(
            spec_apply_change(s, cs[0], reg, tick),
            ms,
            ds,
            rs,
            cs.skip(1),
            reg,
            tick,
        );
    }
}

/// An update message leaves the seen-update tick at the newer of its own
/// tick and the tick already seen.
pub proof fn lemma_apply_update_tick(s: ApplyState, m: UpdateMessageView, reg: Seq<FnsEntry>)
    ensures
        spec_apply_update(s, m, reg).update_tick == RepliconTick(
            tick_max(m.tick.0, s.update_tick.0),
        ),
{
    let s0 = ApplyState { update_tick: RepliconTick(tick_max(m.tick.0, s.update_tick.0)), ..s };
    lemma_folds_keep_tick(s0, m.mappings, m.despawns, m.removals, m.changes, reg, m.tick);
    let s1 = spec_apply_mappings(s0, m.mappings);
    lemma_folds_keep_tick(s1, m.mappings, m.despawns, m.removals, m.changes, reg, m.tick);
    let s2 = spec_apply_despawns(s1, m.despawns);
    lemma_folds_keep_tick(s2, m.mappings, m.despawns, m.removals, m.changes, reg, m.tick);
    let s3 = spec_apply_removals(s2, m.removals, reg, m.tick);
    lemma_folds_keep_tick(s3, m.mappings, m.despawns, m.removals, m.changes, reg, m.tick);
}

/// Ticks delivered in ascending order leave the seen-update tick at or past
/// the newest of them. The one excluded corner is a prior tick sitting
/// exactly half the counter range away from the newer message's tick, where
/// the modular order cannot rank the two.
pub proof fn lemma_update_tick_monotonic(
    s: ApplyState,
    m1: UpdateMessageView,
    m2: UpdateMessageView,
    reg: Seq<FnsEntry>,
)
    requires
        tick_gt(m2.tick.0, m1.tick.0),
        crate::tick::tick_delta(m2.tick.0, s.update_tick.0) != 0x8000_0000,
    ensures
        crate::tick::tick_ge(
            spec_apply_update(spec_apply_update(s, m1, reg), m2, reg).update_tick.0,
            m2.tick.0,
        ),
{
    lemma_apply_update_tick(s, m1, reg);
    lemma_apply_update_tick(spec_apply_update(s, m1, reg), m2, reg);
}

// ---------------------------------------------------------------------------
// Mutate messages
// ---------------------------------------------------------------------------

/// The components after writing each listed value at `tick`, each write
/// gated on the entity not already holding a strictly newer value.
pub open spec fn spec_write_components_gated(
    cs: Seq<ComponentSlotView>,
    comps: Seq<(FnsId, Seq<u8>)>,
    reg: Seq<FnsEntry>,
    tick: RepliconTick,
) -> Seq<ComponentSlotView>
    decreases comps.len(),
{
    if comps.len() == 0 {
        cs
    } else {
        let cs1 = if comps[0].0.0 < reg.len() {
            crate::world::spec_set_slot_gated(
                cs,
                ComponentSlotView {
                    component_id: reg[comps[0].0.0 as int].component_id,
                    data: comps[0].1,
                    tick,
                },
            )
        } else {
            cs
        };
        spec_write_components_gated(cs1, comps.skip(1), reg, tick)
    }
}

/// One entity entry of a mutate message at tick `mtick`. The second result
/// is `false` exactly when the entry's data would not decode for a live,
/// confirmed entity: fatal to the message, per the error policy. Entries for
/// unknown, locally despawned or never-confirmed entities are passed over,
/// as are entries older than the entity's history allows.
pub open spec fn spec_apply_mutation(
    s: ApplyState,
    entry: (Entity, Seq<u8>),
    reg: Seq<FnsEntry>,
    mtick: RepliconTick,
) -> (ApplyState, bool) {
    if !s.to_client.contains_key(entry.0.spec_bits()) {
        (s, true)
    } else {
        let ci = spec_find(s.world.entities, entity_of_bits(s.to_client[entry.0.spec_bits()]));
        if ci < 0 {
            (s, true)
        } else {
            let e = s.world.entities[ci];
            match e.confirmed {
                None => (s, true),
                Some(h) => {
                    if tick_gt(mtick.0, h.last_tick.0) {
                        match crate::messages::components_dyn(entry.1, 0, reg) {
                            None => (s, false),
                            Some((comps, _end)) => {
                                let e2 = WorldEntityView {
                                    confirmed: Some(h.spec_advance(mtick)),
                                    components: spec_write_components(e.components, comps, reg, mtick),
                                    ..e
                                };
                                (
                                    ApplyState {
                                        world: ClientWorldView {
                                            entities: s.world.entities.update(ci, e2),
                                            ..s.world
                                        },
                                        ..s
                                    },
                                    true,
                                )
                            },
                        }
                    } else if e.needs_history {
                        let ago = crate::tick::tick_delta(h.last_tick.0, mtick.0);
                        if ago >= 64 {
                            (s, true)
                        } else {
                            match crate::messages::components_dyn(entry.1, 0, reg) {
                                None => (s, false),
                                Some((comps, _end)) => {
                                    let h2 = Confirmed {
                                        mask: h.mask | (1u64 << ago as u64),
                                        last_tick: h.last_tick,
                                    };
                                    let e2 = WorldEntityView {
                                        confirmed: Some(h2),
                                        components: spec_write_components_gated(
                                            e.components,
                                            comps,
                                            reg,
                                            mtick,
                                        ),
                                        ..e
                                    };
                                    (
                                        ApplyState {
                                            world: ClientWorldView {
                                                entities: s.world.entities.update(ci, e2),
                                                ..s.world
                                            },
                                            ..s
                                        },
                                        true,
                                    )
                                },
                            }
                        }
                    } else {
                        (s, true)
                    }
                },
            }
        }
    }
}

pub open spec fn spec_apply_mutations(
    s: ApplyState,
    entries: Seq<(Entity, Seq<u8>)>,
    reg: Seq<FnsEntry>,
    mtick: RepliconTick,
) -> (ApplyState, bool)
    decreases entries.len(),
{
    if entries.len() == 0 {
        (s, true)
    } else {
        let (s1, ok1) = spec_apply_mutation(s, entries[0], reg, mtick);
        let (s2, ok2) = spec_apply_mutations(s1, entries.skip(1), reg, mtick);
        (s2, ok1 && ok2)
    }
}

/// Applies one entity entry of a mutate message with tick `mtick`, returning
/// whether its data was clean.
fn apply_mutation_entry(
    world: &mut ClientWorld,
    map: &mut ServerEntityMap,
    registry: &ReplicationRegistry,
    mtick: RepliconTick,
    entry: &crate::messages::MutationEntry,
) -> (r: bool)
    requires
        world_wf(old(world)@),
        old(map).wf(),
    ensures
        ({
            let (sn, clean) = spec_apply_mutation(
                state_of(*old(world), *old(map), RepliconTick(0)),
                entry@,
                registry.entries@,
                mtick,
            );
            final(world)@ == sn.world && final(map).to_client@ == sn.to_client
                && final(map).to_server@ == sn.to_server && r == clean
        }),
        world_wf(final(world)@),
        final(map).wf(),
{
    let ghost so = state_of(*old(world), *old(map), RepliconTick(0));
    let ce = match map.get_by_server(entry.entity) {
        Some(ce) => ce,
        None => {
            return true;
        },
    };
    let i = match world.find_entity(ce) {
        Some(i) => i,
        None => {
            return true;
        },
    };
    let (last_tick, needs_history) = {
        let e = world.entity_at(i);
        match &e.confirmed {
            Some(h) => (h.last_tick(), e.needs_history),
            None => {
                return true;
            },
        }
    };
    let new_tick = mtick.is_newer_than(last_tick);
    let ghost h = world@.entities[i as int].confirmed->Some_0;
    if new_tick {
        let comps = match crate::messages::parse_entry_components(entry.data.as_slice(), registry) {
            Ok(c) => c,
            Err(_) => {
                return false;
            },
        };
        let ghost es = world@.entities;
        let mut e = world.take_entity(i);
        e.advance_confirmed(mtick);
        let ghost e1 = WorldEntityView { confirmed: Some(h.spec_advance(mtick)), ..es[i as int] };
        let ghost cs0 = e@.components;
        let ghost cv = crate::messages::components_view(comps@);
        proof {
            assert(cv.skip(0) =~= cv);
            assert(entity_wf(e@));
        }
        let mut j: usize = 0;
        while j < comps.len()
            invariant
                j <= cv.len(),
                cv == crate::messages::components_view(comps@),
                cv.len() == comps@.len(),
                (i as int) < es.len(),
                entity_wf(e@),
                e@.confirmed == e1.confirmed,
                e@.id == e1.id,
                e@.replicated == e1.replicated,
                e@.needs_history == e1.needs_history,
                e1 == (WorldEntityView { confirmed: Some(h.spec_advance(mtick)), ..es[i as int] }),
                spec_write_components(e@.components, cv.skip(j as int), registry.entries@, mtick)
                    == spec_write_components(cs0, cv, registry.entries@, mtick),
            decreases cv.len() - j,
        {
            proof {
                assert(cv.skip(j as int)[0] == cv[j as int]);
                assert(cv[j as int] == comps@[j as int]@);
                assert(cv.skip(j as int).skip(1) =~= cv.skip(j as int + 1));
            }
            let f = comps[j].fns_id;
            match registry.get(f) {
                Some(fentry) => {
                    let cid = fentry.component_id;
                    let value = clone_bytes(&comps[j].data);
                    e.set_component(cid, value, mtick);
                },
                None => {
                },
            }
            j = j + 1;
        }
        proof {
            assert(cv.skip(cv.len() as int).len() == 0);
            assert(cs0 == es[i as int].components);
        }
        world.put_entity(i, e);
        proof {
            let e2 = WorldEntityView {
                confirmed: Some(h.spec_advance(mtick)),
                components: spec_write_components(
                    es[i as int].components,
                    cv,
                    registry.entries@,
                    mtick,
                ),
                ..es[i as int]
            };
            assert(world@.entities =~~= es.update(i as int, e2));
            lemma_wf_update(so.world, i as int, e2);
        }
        true
    } else if needs_history {
        let ago = last_tick.distance_since(mtick);
        if ago >= 64 {
            return true;
        }
        let comps = match crate::messages::parse_entry_components(entry.data.as_slice(), registry) {
            Ok(c) => c,
            Err(_) => {
                return false;
            },
        };
        let ghost es = world@.entities;
        let mut e = world.take_entity(i);
        e.confirm_ago(ago);
        let ghost h2 = Confirmed { mask: h.mask | (1u64 << ago as u64), last_tick: h.last_tick };
        let ghost e1 = WorldEntityView { confirmed: Some(h2), ..es[i as int] };
        let ghost cs0 = e@.components;
        let ghost cv = crate::messages::components_view(comps@);
        proof {
            assert(cv.skip(0) =~= cv);
            assert(entity_wf(e@));
        }
        let mut j: usize = 0;
        while j < comps.len()
            invariant
                j <= cv.len(),
                cv == crate::messages::components_view(comps@),
                cv.len() == comps@.len(),
                (i as int) < es.len(),
                entity_wf(e@),
                e@.confirmed == e1.confirmed,
                e@.id == e1.id,
                e@.replicated == e1.replicated,
                e@.needs_history == e1.needs_history,
                e1 == (WorldEntityView { confirmed: Some(h2), ..es[i as int] }),
                spec_write_components_gated(
                    e@.components,
                    cv.skip(j as int),
                    registry.entries@,
                    mtick,
                ) == spec_write_components_gated(cs0, cv, registry.entries@, mtick),
            decreases cv.len() - j,
        {
            proof {
                assert(cv.skip(j as int)[0] == cv[j as int]);
                assert(cv[j as int] == comps@[j as int]@);
                assert(cv.skip(j as int).skip(1) =~= cv.skip(j as int + 1));
            }
            let f = comps[j].fns_id;
            match registry.get(f) {
                Some(fentry) => {
                    let cid = fentry.component_id;
                    let value = clone_bytes(&comps[j].data);
                    e.set_component_if_newer(cid, value, mtick);
                },
                None => {
                },
            }
            j = j + 1;
        }
        proof {
            assert(cv.skip(cv.len() as int).len() == 0);
            assert(cs0 == es[i as int].components);
        }
        world.put_entity(i, e);
        proof {
            let e2 = WorldEntityView {
                confirmed: Some(h2),
                components: spec_write_components_gated(
                    es[i as int].components,
                    cv,
                    registry.entries@,
                    mtick,
                ),
                ..es[i as int]
            };
            assert(world@.entities =~~= es.update(i as int, e2));
            lemma_wf_update(so.world, i as int, e2);
        }
        true
    } else {
        true
    }
}

/// The buffer after taking in one raw mutate message, and the fragment index
/// to acknowledge; nothing when its header does not decode.
pub open spec fn spec_buffer_one(
    buf: Seq<crate::buffered::BufferedMutateView>,
    msg: Seq<u8>,
    track: bool,
) -> Option<(Seq<crate::buffered::BufferedMutateView>, u16)> {
    match crate::messages::mutate_header_parse(msg, track) {
        None => None,
        Some((h, end)) => {
            let entry = crate::buffered::BufferedMutateView {
                update_tick: h.update_tick,
                message_tick: h.message_tick,
                messages_count: h.messages_count,
                payload: msg.skip(end),
            };
            Some(
                (
                    buf.insert(crate::buffered::spec_insert_pos(buf, h.message_tick.0), entry),
                    h.mutate_index,
                ),
            )
        },
    }
}

/// The buffer after taking in a batch of raw mutate messages, and the
/// acknowledgment bytes owed for them: the two little-endian bytes of each
/// message's fragment index, in arrival order. A message whose header does
/// not decode stops the batch with nothing owed.
pub open spec fn spec_buffer_all(
    buf: Seq<crate::buffered::BufferedMutateView>,
    msgs: Seq<Seq<u8>>,
    track: bool,
) -> (Seq<crate::buffered::BufferedMutateView>, Option<Seq<u8>>)
    decreases msgs.len(),
{
    if msgs.len() == 0 {
        (buf, Some(Seq::<u8>::empty()))
    } else {
        match spec_buffer_one(buf, msgs[0], track) {
            None => (buf, None),
            Some((b1, idx)) => {
                let (b2, rest) = spec_buffer_all(b1, msgs.skip(1), track);
                match rest {
                    None => (b2, None),
                    Some(acks) => (b2, Some(crate::codec::u16_le_bytes(idx) + acks)),
                }
            },
        }
    }
}

/// Decodes one received mutate message's header, buffers its payload without
/// copying, and returns the fragment index to acknowledge.
pub fn buffer_mutate_message(
    buffered: &mut crate::buffered::BufferedMutations,
    message: bytes::Bytes,
    track: bool,
) -> (r: Result<u16, crate::codec::DecodeError>)
    ensures
        ({
            match spec_buffer_one(old(buffered)@, crate::shared_bytes::bytes_view(message), track) {
                Some((b2, idx)) => r == Ok::<u16, crate::codec::DecodeError>(idx)
                    && final(buffered)@ == b2,
                None => r.is_err() && final(buffered)@ == old(buffered)@,
            }
        }),
{
    let slice = crate::shared_bytes::bytes_as_slice(&message);
    let (h, end) = match crate::messages::parse_mutate_header(slice, track) {
        Ok(p) => p,
        Err(e) => {
            return Err(e);
        },
    };
    let payload = crate::shared_bytes::bytes_slice_from(&message, end);
    buffered.insert(
        crate::buffered::BufferedMutate {
            update_tick: h.update_tick,
            message_tick: h.message_tick,
            messages_count: h.messages_count,
            message: payload,
        },
    );
    Ok(h.mutate_index)
}

/// Buffers a batch of received mutate messages and builds the
/// acknowledgment bytes to send back on the reliable channel: for every
/// received mutate message with index `i`, the two bytes of `i` stand in the
/// result, in arrival order.
pub fn process_mutate_messages(
    buffered: &mut crate::buffered::BufferedMutations,
    messages: &Vec<bytes::Bytes>,
    track: bool,
) -> (r: Result<Vec<u8>, crate::codec::DecodeError>)
    ensures
        ({
            let (b2, acks) = spec_buffer_all(
                old(buffered)@,
                crate::shared_bytes::payloads_view(messages@),
                track,
            );
            match acks {
                Some(a) => r matches Ok(v) && v@ == a && final(buffered)@ == b2,
                None => r.is_err(),
            }
        }),
{
    let ghost msgs = crate::shared_bytes::payloads_view(messages@);
    let mut acks: Vec<u8> = Vec::new();
    proof {
        assert(msgs.skip(0) =~= msgs);
    }
    let mut i: usize = 0;
    while i < messages.len()
        invariant
            i <= msgs.len(),
            msgs == crate::shared_bytes::payloads_view(messages@),
            msgs.len() == messages@.len(),
            ({
                let (b2, rest) = spec_buffer_all(buffered@, msgs.skip(i as int), track);
                let (bg, whole) = spec_buffer_all(
                    old(buffered)@,
                    msgs,
                    track,
                );
                &&& (rest matches Some(ra) ==> whole matches Some(wa) && bg == b2 && wa == acks@
                    + ra)
                &&& (rest is None ==> whole is None)
            }),
        decreases msgs.len() - i,
    {
        proof {
            assert(msgs.skip(i as int)[0] == msgs[i as int]);
            assert(msgs[i as int] == crate::shared_bytes::bytes_view(messages@[i as int]));
            assert(msgs.skip(i as int).skip(1) =~= msgs.skip(i as int + 1));
        }
        let m = crate::shared_bytes::bytes_clone(&messages[i]);
        let idx = match buffer_mutate_message(buffered, m, track) {
            Ok(idx) => idx,
            Err(e) => {
                return Err(e);
            },
        };
        let ghost acks_before = acks@;
        crate::codec::write_u16_le(&mut acks, idx);
        proof {
            if let Some((b1, idx0)) = spec_buffer_one(
                buffered@,
                msgs[i as int],
                track,
            ) {
            }
            let (b2, rest2) = spec_buffer_all(buffered@, msgs.skip(i as int + 1), track);
            if let Some(ra2) = rest2 {
                assert(acks_before + (crate::codec::u16_le_bytes(idx) + ra2) =~= acks@ + ra2);
            }
        }
        i = i + 1;
    }
    proof {
        assert(msgs.skip(msgs.len() as int).len() == 0);
        let (b2, rest) = spec_buffer_all(buffered@, msgs.skip(msgs.len() as int), track);
        assert(rest == Some(Seq::<u8>::empty()));
        assert(acks@ + Seq::<u8>::empty() =~= acks@);
    }
    Ok(acks)
}

/// The buffered messages a drain at update tick `cur` keeps: exactly those
/// whose required update tick has not been seen yet.
pub open spec fn spec_retained(
    buf: Seq<crate::buffered::BufferedMutateView>,
    cur: u32,
) -> Seq<crate::buffered::BufferedMutateView>
    decreases buf.len(),
{
    if buf.len() == 0 {
        Seq::empty()
    } else if tick_gt(buf[0].update_tick.0, cur) {
        seq![buf[0]] + spec_retained(buf.skip(1), cur)
    } else {
        spec_retained(buf.skip(1), cur)
    }
}

/// A mutation buffered for an update tick not yet seen survives a drain.
pub proof fn lemma_retained_keeps(
    buf: Seq<crate::buffered::BufferedMutateView>,
    cur: u32,
    k: int,
)
    requires
        0 <= k < buf.len(),
        tick_gt(buf[k].update_tick.0, cur),
    ensures
        spec_retained(buf, cur).contains(buf[k]),
    decreases buf.len(),
{
    if k == 0 {
        assert(spec_retained(buf, cur)[0] == buf[0]);
    } else {
        lemma_retained_keeps(buf.skip(1), cur, k - 1);
        let sub = spec_retained(buf.skip(1), cur);
        let w = choose|w: int| 0 <= w < sub.len() && sub[w] == buf.skip(1)[k - 1];
        if tick_gt(buf[0].update_tick.0, cur) {
            assert(spec_retained(buf, cur)[w + 1] == sub[w]);
        }
        assert(buf.skip(1)[k - 1] == buf[k]);
    }
}

/// The state after draining every ripe buffered message, and whether every
/// drained payload decoded cleanly.
pub open spec fn spec_drain(
    s: ApplyState,
    buf: Seq<crate::buffered::BufferedMutateView>,
    cur: u32,
    reg: Seq<FnsEntry>,
) -> (ApplyState, bool)
    decreases buf.len(),
{
    if buf.len() == 0 {
        (s, true)
    } else {
        let b = buf[0];
        if tick_gt(b.update_tick.0, cur) {
            spec_drain(s, buf.skip(1), cur, reg)
        } else {
            match crate::messages::mutations_dyn(b.payload, 0) {
                None => {
                    let (s2, _ok) = spec_drain(s, buf.skip(1), cur, reg);
                    (s2, false)
                },
                Some((entries, _end)) => {
                    let (s1, ok1) = spec_apply_mutations(s, entries, reg, b.message_tick);
                    let (s2, ok2) = spec_drain(s1, buf.skip(1), cur, reg);
                    (s2, ok1 && ok2)
                },
            }
        }
    }
}

/// The fragment tally after every ripe buffered message is confirmed against
/// it, and the ticks that thereby became fully received, in drain order;
/// messages kept for a later pass confirm nothing yet.
pub open spec fn spec_drain_confirms(
    m: Map<u32, (u64, u64)>,
    buf: Seq<crate::buffered::BufferedMutateView>,
    cur: u32,
) -> (Map<u32, (u64, u64)>, Seq<RepliconTick>)
    decreases buf.len(),
{
    if buf.len() == 0 {
        (m, Seq::empty())
    } else if tick_gt(buf[0].update_tick.0, cur) {
        spec_drain_confirms(m, buf.skip(1), cur)
    } else {
        let (m1, done) = crate::acks::spec_confirm(m, buf[0].message_tick, buf[0].messages_count);
        let (m2, evs) = spec_drain_confirms(m1, buf.skip(1), cur);
        (
            m2,
            if done {
                seq![buf[0].message_tick] + evs
            } else {
                evs
            },
        )
    }
}

/// Drains every buffered mutate message whose update tick has been seen,
/// applying it against the world, and keeps the rest for a later pass.
/// Returns whether every drained payload decoded cleanly (a dirty payload is
/// dropped with its message, never reapplied) and, when fragment counting is
/// on, the ticks whose last fragment this drain consumed. Each drained
/// message confirms one fragment of its tick in `mutate_ticks`; with `track`
/// off the tally is left alone, as the server then sends no fragment counts.
#[verifier::loop_isolation(false)]
pub fn apply_mutate_messages(
    world: &mut ClientWorld,
    map: &mut ServerEntityMap,
    buffered: &mut crate::buffered::BufferedMutations,
    registry: &ReplicationRegistry,
    update_tick: RepliconTick,
    mutate_ticks: &mut crate::acks::ServerMutateTicks,
    track: bool,
) -> (r: (bool, Vec<RepliconTick>))
    requires
        world_wf(old(world)@),
        old(map).wf(),
    ensures
        ({
            let (sn, clean) = spec_drain(
                state_of(*old(world), *old(map), update_tick),
                old(buffered)@,
                update_tick.0,
                registry.entries@,
            );
            final(world)@ == sn.world && final(map).to_client@ == sn.to_client
                && final(map).to_server@ == sn.to_server && r.0 == clean
        }),
        final(buffered)@ == spec_retained(old(buffered)@, update_tick.0),
        track ==> ({
            let (m2, evs) = spec_drain_confirms(
                old(mutate_ticks).ticks@,
                old(buffered)@,
                update_tick.0,
            );
            final(mutate_ticks).ticks@ == m2 && r.1@ == evs
        }),
        !track ==> final(mutate_ticks).ticks@ == old(mutate_ticks).ticks@ && r.1@.len() == 0,
        world_wf(final(world)@),
        final(map).wf(),
{
    let ghost all = buffered@;
    let ghost s0 = state_of(*world, *map, update_tick);
    let mut kept: Vec<crate::buffered::BufferedMutate> = Vec::new();
    let mut clean = true;
    let mut events: Vec<RepliconTick> = Vec::new();
    proof {
        assert(all.skip(0) =~= all);
        assert(crate::buffered::buffered_view(kept@) =~= Seq::<
            crate::buffered::BufferedMutateView,
        >::empty());
    }
    while buffered.0.len() > 0
        invariant
            world_wf(world@),
            map.wf(),
            ({
                let remaining = crate::buffered::buffered_view(buffered.0@);
                let (sw, cw) = spec_drain(s0, all, update_tick.0, registry.entries@);
                let (sr, cr) = spec_drain(
                    state_of(*world, *map, update_tick),
                    remaining,
                    update_tick.0,
                    registry.entries@,
                );
                &&& sw == sr
                &&& cw == (clean && cr)
                &&& spec_retained(all, update_tick.0) == crate::buffered::buffered_view(kept@)
                    + spec_retained(remaining, update_tick.0)
            }),
            track ==> ({
                let remaining = crate::buffered::buffered_view(buffered.0@);
                let (mw, ew) = spec_drain_confirms(
                    old(mutate_ticks).ticks@,
                    all,
                    update_tick.0,
                );
                let (mr, er) = spec_drain_confirms(mutate_ticks.ticks@, remaining, update_tick.0);
                mw == mr && ew == events@ + er
            }),
            !track ==> mutate_ticks.ticks@ == old(mutate_ticks).ticks@ && events@.len() == 0,
        decreases buffered.0@.len(),
    {
        let ghost remaining = crate::buffered::buffered_view(buffered.0@);
        proof {
            assert(remaining.skip(1) =~= crate::buffered::buffered_view(buffered.0@.skip(1)));
            assert(remaining[0] == buffered.0@[0]@);
        }
        let b = buffered.0.remove(0);
        proof {
            assert(crate::buffered::buffered_view(buffered.0@) =~= remaining.skip(1));
        }
        if b.update_tick.is_newer_than(update_tick) {
            let ghost kept_before = crate::buffered::buffered_view(kept@);
            kept.push(b);
            proof {
                assert(crate::buffered::buffered_view(kept@) =~= kept_before.push(remaining[0]));
                assert(kept_before + (seq![remaining[0]] + spec_retained(
                    remaining.skip(1),
                    update_tick.0,
                )) =~= kept_before.push(remaining[0]) + spec_retained(
                    remaining.skip(1),
                    update_tick.0,
                ));
            }
        } else {
            let slice = crate::shared_bytes::bytes_as_slice(&b.message);
            match crate::messages::parse_mutations(slice, 0) {
                Ok(entries) => {
                    let ghost evs = crate::messages::mutations_view(entries@);
                    let ghost s_at = state_of(*world, *map, update_tick);
                    let mut mclean = true;
                    proof {
                        assert(evs.skip(0) =~= evs);
                    }
                    let mut k: usize = 0;
                    while k < entries.len()
                        invariant
                            k <= evs.len(),
                            evs == crate::messages::mutations_view(entries@),
                            evs.len() == entries@.len(),
                            world_wf(world@),
                            map.wf(),
                            ({
                                let (sa, ca) = spec_apply_mutations(
                                    s_at,
                                    evs,
                                    registry.entries@,
                                    b.message_tick,
                                );
                                let (sk, ck) = spec_apply_mutations(
                                    state_of(*world, *map, update_tick),
                                    evs.skip(k as int),
                                    registry.entries@,
                                    b.message_tick,
                                );
                                sa == sk && ca == (mclean && ck)
                            }),
                        decreases evs.len() - k,
                    {
                        proof {
                            assert(evs.skip(k as int)[0] == evs[k as int]);
                            assert(evs[k as int] == entries@[k as int]@);
                            assert(evs.skip(k as int).skip(1) =~= evs.skip(k as int + 1));
                        }
                        let ok = apply_mutation_entry(
                            world,
                            map,
                            registry,
                            b.message_tick,
                            &entries[k],
                        );
                        if !ok {
                            mclean = false;
                        }
                        k = k + 1;
                    }
                    proof {
                        assert(evs.skip(evs.len() as int).len() == 0);
                    }
                    if !mclean {
                        clean = false;
                    }
                },
                Err(_) => {
                    clean = false;
                },
            }
            if track {
                let ghost evb = events@;
                let done = mutate_ticks.confirm(b.message_tick, b.messages_count);
                if done {
                    events.push(b.message_tick);
                }
                proof {
                    let er = spec_drain_confirms(
                        mutate_ticks.ticks@,
                        crate::buffered::buffered_view(buffered.0@),
                        update_tick.0,
                    ).1;
                    if done {
                        assert(evb + (seq![b.message_tick] + er) =~= events@ + er);
                    }
                }
            }
        }
    }
    proof {
        assert(crate::buffered::buffered_view(buffered.0@).len() == 0);
        assert(spec_retained(crate::buffered::buffered_view(buffered.0@), update_tick.0)
            =~= Seq::<crate::buffered::BufferedMutateView>::empty());
        assert(crate::buffered::buffered_view(kept@) + Seq::<
            crate::buffered::BufferedMutateView,
        >::empty() =~= crate::buffered::buffered_view(kept@));
        assert(events@ + Seq::<RepliconTick>::empty() =~= events@);
    }
    buffered.0 = kept;
    (clean, events)
}

/// The state after applying a batch of raw update messages in order, and
/// whether they all decoded; a message that does not decode stops the batch.
pub open spec fn spec_apply_update_msgs(
    s: ApplyState,
    msgs: Seq<Seq<u8>>,
    reg: Seq<FnsEntry>,
) -> (ApplyState, bool)
    decreases msgs.len(),
{
    if msgs.len() == 0 {
        (s, true)
    } else {
        match crate::messages::update_parse(msgs[0], reg) {
            None => (s, false),
            Some(v) => spec_apply_update_msgs(spec_apply_update(s, v, reg), msgs.skip(1), reg),
        }
    }
}

/// Resets the client's replication state for a fresh session: the seen
/// update tick, the entity map and the mutation buffer all start over.
pub fn reset(
    update_tick: &mut RepliconTick,
    entity_map: &mut ServerEntityMap,
    buffered: &mut crate::buffered::BufferedMutations,
)
    ensures
        *final(update_tick) == RepliconTick(0),
        final(entity_map).wf(),
        final(entity_map).to_client@ == Map::<u64, u64>::empty(),
        final(entity_map).to_server@ == Map::<u64, u64>::empty(),
        final(buffered)@ == Seq::<crate::buffered::BufferedMutateView>::empty(),
{
    *update_tick = RepliconTick(0);
    entity_map.clear();
    buffered.clear();
}

/// One receive pass: applies every update message from the reliable channel,
/// buffers every received mutate message and queues their acknowledgments,
/// then drains the ripe buffered mutations against the new update tick; each
/// drained message confirms one fragment of its tick in `mutate_ticks`, and
/// `events` is left holding the ticks whose last fragment this pass consumed,
/// for the host to announce. With `track` off the server sends no fragment
/// counts and the tally stays untouched. Fails on the first update message
/// that does not decode, leaving later ones unread for the session to tear
/// down, or when a mutate payload is malformed.
#[verifier::loop_isolation(false)]
#[verifier::rlimit(60)]
pub fn apply_replication(
    world: &mut ClientWorld,
    map: &mut ServerEntityMap,
    update_tick: &mut RepliconTick,
    buffered: &mut crate::buffered::BufferedMutations,
    registry: &ReplicationRegistry,
    client: &mut crate::replicon_client::RepliconClient,
    mutate_ticks: &mut crate::acks::ServerMutateTicks,
    events: &mut Vec<RepliconTick>,
    track: bool,
) -> (r: Result<(), crate::codec::DecodeError>)
    requires
        world_wf(old(world)@),
        old(map).wf(),
        old(client).spec_received().len() >= 2,
        old(client).spec_is_connected(),
    ensures
        world_wf(final(world)@),
        final(map).wf(),
        ({
            let s0 = state_of(*old(world), *old(map), *old(update_tick));
            let ups = crate::shared_bytes::payloads_view(old(client).spec_received()[0]@);
            let (s1, ok1) = spec_apply_update_msgs(s0, ups, registry.entries@);
            if !ok1 {
                &&& r.is_err()
                &&& state_of(*final(world), *final(map), *final(update_tick)) == s1
                &&& final(buffered)@ == old(buffered)@
                &&& final(mutate_ticks).ticks@ == old(mutate_ticks).ticks@
                &&& final(events)@.len() == 0
            } else {
                let muts = crate::shared_bytes::payloads_view(old(client).spec_received()[1]@);
                let (b1, acksopt) = spec_buffer_all(old(buffered)@, muts, track);
                match acksopt {
                    None => {
                        &&& r.is_err()
                        &&& state_of(*final(world), *final(map), *final(update_tick)) == s1
                        &&& final(mutate_ticks).ticks@ == old(mutate_ticks).ticks@
                        &&& final(events)@.len() == 0
                    },
                    Some(acks) => {
                        let (s2, clean) = spec_drain(s1, b1, s1.update_tick.0, registry.entries@);
                        &&& (r.is_ok() <==> clean)
                        &&& state_of(*final(world), *final(map), *final(update_tick)) == s2
                        &&& final(buffered)@ == spec_retained(b1, s1.update_tick.0)
                        &&& (track ==> ({
                            let (m2, evs) = spec_drain_confirms(
                                old(mutate_ticks).ticks@,
                                b1,
                                s1.update_tick.0,
                            );
                            final(mutate_ticks).ticks@ == m2 && final(events)@ == evs
                        }))
                        &&& (!track ==> final(mutate_ticks).ticks@ == old(mutate_ticks).ticks@
                            && final(events)@.len() == 0)
                        &&& (muts.len() > 0 ==> final(client).spec_sent().len() == old(
                            client,
                        ).spec_sent().len() + 1 && final(client).spec_sent().last().0 == 0
                            && crate::shared_bytes::bytes_view(
                            final(client).spec_sent().last().1,
                        ) == acks)
                        &&& (muts.len() == 0 ==> final(client).spec_sent() == old(
                            client,
                        ).spec_sent())
                    },
                }
            }
        }),
{
    let ghost s0 = state_of(*world, *map, *update_tick);
    let ghost reg = registry.entries@;
    events.clear();
    let updates = client.receive(0);
    let ghost ups = crate::shared_bytes::payloads_view(updates@);
    proof {
        assert(ups.skip(0) =~= ups);
    }
    let mut i: usize = 0;
    while i < updates.len()
        invariant
            i <= ups.len(),
            ups == crate::shared_bytes::payloads_view(updates@),
            ups.len() == updates@.len(),
            world_wf(world@),
            map.wf(),
            spec_apply_update_msgs(
                state_of(*world, *map, *update_tick),
                ups.skip(i as int),
                reg,
            ) == spec_apply_update_msgs(s0, ups, reg),
        decreases ups.len() - i,
    {
        proof {
            assert(ups.skip(i as int)[0] == ups[i as int]);
            assert(ups[i as int] == crate::shared_bytes::bytes_view(updates@[i as int]));
            assert(ups.skip(i as int).skip(1) =~= ups.skip(i as int + 1));
        }
        let slice = crate::shared_bytes::bytes_as_slice(&updates[i]);
        let msg = match crate::messages::parse_update_message(slice, registry) {
            Ok(m) => m,
            Err(e) => {
                return Err(e);
            },
        };
        apply_update_message(world, map, update_tick, registry, &msg);
        i = i + 1;
    }
    proof {
        assert(ups.skip(ups.len() as int).len() == 0);
    }
    let ghost s1 = spec_apply_update_msgs(s0, ups, reg).0;
    proof {
        assert(state_of(*world, *map, *update_tick) == s1);
    }
    let muts = client.receive(1);
    if muts.len() > 0 {
        let acks = match process_mutate_messages(buffered, &muts, track) {
            Ok(a) => a,
            Err(e) => {
                return Err(e);
            },
        };
        client.send(0, crate::shared_bytes::bytes_from_vec(acks));
    }
    let ghost pre_drain = buffered@;
    let (clean, done_ticks) = apply_mutate_messages(
        world,
        map,
        buffered,
        registry,
        *update_tick,
        mutate_ticks,
        track,
    );
    *events = done_ticks;
    proof {
        lemma_drain_keeps_tick(s1, pre_drain, s1.update_tick.0, reg);
    }
    if clean {
        Ok(())
    } else {
        Err(crate::codec::DecodeError::MalformedVarint)
    }
}

/// Applying mutation entries never moves the seen-update tick.
proof fn lemma_mutations_keep_tick(
    s: ApplyState,
    entries: Seq<(Entity, Seq<u8>)>,
    reg: Seq<FnsEntry>,
    mtick: RepliconTick,
)
    ensures
        spec_apply_mutations(s, entries, reg, mtick).0.update_tick == s.update_tick,
    decreases entries.len(),
{
    if entries.len() > 0 {
        let (s1, _ok) = spec_apply_mutation(s, entries[0], reg, mtick);
        lemma_mutations_keep_tick(s1, entries.skip(1), reg, mtick);
    }
}

/// Draining buffered mutations never moves the seen-update tick.
proof fn lemma_drain_keeps_tick(
    s: ApplyState,
    buf: Seq<crate::buffered::BufferedMutateView>,
    cur: u32,
    reg: Seq<FnsEntry>,
)
    ensures
        spec_drain(s, buf, cur, reg).0.update_tick == s.update_tick,
    decreases buf.len(),
{
    if buf.len() > 0 {
        let b = buf[0];
        if tick_gt(b.update_tick.0, cur) {
            lemma_drain_keeps_tick(s, buf.skip(1), cur, reg);
        } else {
            match crate::messages::mutations_dyn(b.payload, 0) {
                None => {
                    lemma_drain_keeps_tick(s, buf.skip(1), cur, reg);
                },
                Some((es, _end)) => {
                    let (s1, _ok) = spec_apply_mutations(s, es, reg, b.message_tick);
                    lemma_mutations_keep_tick(s, es, reg, b.message_tick);
                    lemma_drain_keeps_tick(s1, buf.skip(1), cur, reg);
                },
            }
        }
    }
}

/// A CHANGES element confirms its message tick on the client entity it
/// lands on: right after the element applies, that entity's history reads
/// the tick back as confirmed.
pub proof fn lemma_change_confirms_tick(
    s: ApplyState,
    ch: (Entity, Seq<(FnsId, Seq<u8>)>),
    reg: Seq<FnsEntry>,
    tick: RepliconTick,
)
    ensures
        ({
            let r = spec_resolve(s, ch.0);
            let s2 = spec_apply_change(s, ch, reg, tick);
            r.ok ==> 0 <= r.index < s2.world.entities.len() && (s2.world.entities[r.index].confirmed matches Some(h)
                && h.spec_contains(tick))
        }),
{
    let r = spec_resolve(s, ch.0);
    if r.ok {
        if s.to_client.contains_key(ch.0.spec_bits()) {
            lemma_spec_find(s.world.entities, entity_of_bits(s.to_client[ch.0.spec_bits()]));
        }
        let e = r.state.world.entities[r.index];
        match e.confirmed {
            Some(h) => {
                crate::confirmed::lemma_confirm_contains(h, tick);
            },
            None => {
                assert((1u64 >> 0u64) & 1 == 1) by (bit_vector);
            },
        }
    }
}

// ---------------------------------------------------------------------------
// The confirmed-tick law
// ---------------------------------------------------------------------------

/// Binding a pair with stale-pair cleanup keeps the two directions inverses.
proof fn lemma_map_insert_wf(tc: Map<u64, u64>, ts: Map<u64, u64>, sb: u64, cb: u64)
    requires
        maps_wf(tc, ts),
    ensures
        maps_wf(map_insert_to_client(tc, ts, sb, cb), map_insert_to_server(tc, ts, sb, cb)),
{
}

/// Unbinding a pair keeps the two directions inverses.
proof fn lemma_map_remove_wf(tc: Map<u64, u64>, ts: Map<u64, u64>, sb: u64)
    requires
        maps_wf(tc, ts),
        tc.contains_key(sb),
    ensures
        maps_wf(tc.remove(sb), ts.remove(tc[sb])),
{
}

/// An entity found alive stays findable after an in-place update elsewhere,
/// and after the store grows at the end.
proof fn lemma_spec_find_push(es: Seq<WorldEntityView>, y: WorldEntityView, id: Entity)
    requires
        spec_find(es, id) >= 0,
    ensures
        spec_find(es.push(y), id) == spec_find(es, id),
    decreases es.len(),
{
    let p = es.push(y);
    if es.len() > 0 {
        assert(p[0] == es[0]);
        if es[0].id != id {
            assert(p.skip(1) =~= es.skip(1).push(y));
            lemma_spec_find_push(es.skip(1), y, id);
        }
    }
}

/// Replacing an entity in place without changing its identifier leaves
/// every lookup where it was.
proof fn lemma_spec_find_same_id(es: Seq<WorldEntityView>, i: int, x: WorldEntityView, id: Entity)
    requires
        0 <= i < es.len(),
        x.id == es[i].id,
    ensures
        spec_find(es.update(i, x), id) == spec_find(es, id),
    decreases es.len(),
{
    let es2 = es.update(i, x);
    if es.len() > 0 {
        if i == 0 {
            if es[0].id != id {
                assert(es2.skip(1) =~= es.skip(1));
            }
        } else {
            assert(es2[0] == es[0]);
            if es[0].id != id {
                assert(es2.skip(1) =~= es.skip(1).update(i - 1, x));
                lemma_spec_find_same_id(es.skip(1), i - 1, x, id);
            }
        }
    }
}

/// Resolving a server entity keeps the state well formed, and lands on an
/// entity that carries the server entity's mapping.
proof fn lemma_resolve_wf(s: ApplyState, se: Entity)
    requires
        state_wf(s),
    ensures
        state_wf(spec_resolve(s, se).state),
        ({
            let r = spec_resolve(s, se);
            r.ok ==> 0 <= r.index < r.state.world.entities.len() && r.state.to_client.contains_key(
                se.spec_bits(),
            ) && r.state.world.entities[r.index].id == entity_of_bits(
                r.state.to_client[se.spec_bits()],
            )
        }),
{
    let r = spec_resolve(s, se);
    if s.to_client.contains_key(se.spec_bits()) {
        lemma_spec_find(s.world.entities, entity_of_bits(s.to_client[se.spec_bits()]));
    } else if s.world.next_index < 0xFFFF_FFFF {
        let id = Entity { index: s.world.next_index, generation: 0 };
        lemma_entity_bits_inverse(id, 0);
        lemma_map_insert_wf(s.to_client, s.to_server, se.spec_bits(), id.spec_bits());
        let es2 = r.state.world.entities;
        assert forall|a: int, b: int| 0 <= a < b < es2.len() implies es2[a].id != es2[b].id by {
            if b == es2.len() - 1 {
                assert(es2[a] == s.world.entities[a]);
                assert(es2[b].id == id);
            } else {
                assert(es2[a] == s.world.entities[a]);
                assert(es2[b] == s.world.entities[b]);
            }
        }
        assert forall|a: int| 0 <= a < es2.len() implies (#[trigger] es2[a]).id.index
            < r.state.world.next_index && entity_wf(es2[a]) by {
            if a < es2.len() - 1 {
                assert(es2[a] == s.world.entities[a]);
            } else {
                assert(es2[a] == spec_fresh_entity(s.world.next_index, true));
            }
        }
    }
}

/// One CHANGES element keeps the state well formed.
proof fn lemma_change_wf(
    s: ApplyState,
    ch: (Entity, Seq<(FnsId, Seq<u8>)>),
    reg: Seq<FnsEntry>,
    tick: RepliconTick,
)
    requires
        state_wf(s),
    ensures
        state_wf(spec_apply_change(s, ch, reg, tick)),
{
    let r = spec_resolve(s, ch.0);
    lemma_resolve_wf(s, ch.0);
    if r.ok {
        let e = r.state.world.entities[r.index];
        let e2 = WorldEntityView {
            confirmed: Some(spec_confirm_opt(e.confirmed, tick)),
            components: spec_write_components(e.components, ch.1, reg, tick),
            ..e
        };
        lemma_write_components_wf(e.components, ch.1, reg, tick);
        lemma_wf_update(r.state.world, r.index, e2);
    }
}

/// Writing component values preserves per-entity uniqueness of types.
proof fn lemma_write_components_wf(
    cs: Seq<ComponentSlotView>,
    comps: Seq<(FnsId, Seq<u8>)>,
    reg: Seq<FnsEntry>,
    tick: RepliconTick,
)
    requires
        forall|a: int, b: int|
            0 <= a < b < cs.len() ==> cs[a].component_id != cs[b].component_id,
    ensures
        ({
            let cs2 = spec_write_components(cs, comps, reg, tick);
            forall|a: int, b: int|
                0 <= a < b < cs2.len() ==> cs2[a].component_id != cs2[b].component_id
        }),
    decreases comps.len(),
{
    if comps.len() > 0 {
        if comps[0].0.0 < reg.len() {
            let slot = ComponentSlotView {
                component_id: reg[comps[0].0.0 as int].component_id,
                data: comps[0].1,
                tick,
            };
            lemma_set_slot_wf(cs, slot);
            lemma_write_components_wf(spec_set_slot(cs, slot), comps.skip(1), reg, tick);
            assert(spec_write_components(cs, comps, reg, tick) == spec_write_components(
                spec_set_slot(cs, slot),
                comps.skip(1),
                reg,
                tick,
            ));
        } else {
            lemma_write_components_wf(cs, comps.skip(1), reg, tick);
            assert(spec_write_components(cs, comps, reg, tick) == spec_write_components(
                cs,
                comps.skip(1),
                reg,
                tick,
            ));
        }
    } else {
        assert(spec_write_components(cs, comps, reg, tick) == cs);
    }
}

/// Writing one slot preserves uniqueness of component types.
proof fn lemma_set_slot_wf(cs: Seq<ComponentSlotView>, slot: ComponentSlotView)
    requires
        forall|a: int, b: int|
            0 <= a < b < cs.len() ==> cs[a].component_id != cs[b].component_id,
    ensures
        ({
            let cs2 = spec_set_slot(cs, slot);
            forall|a: int, b: int|
                0 <= a < b < cs2.len() ==> cs2[a].component_id != cs2[b].component_id
        }),
{
    let j = crate::world::slot_index(cs, slot.component_id);
    crate::world::lemma_slot_index(cs, slot.component_id);
    let cs2 = spec_set_slot(cs, slot);
    if j >= 0 {
        assert forall|a: int, b: int| 0 <= a < b < cs2.len() implies cs2[a].component_id
            != cs2[b].component_id by {
            if a != j && b != j {
                assert(cs2[a] == cs[a] && cs2[b] == cs[b]);
            } else if a == j {
                assert(cs2[b] == cs[b]);
                assert(cs[j].component_id == slot.component_id);
            } else {
                assert(cs2[a] == cs[a]);
                assert(cs[j].component_id == slot.component_id);
            }
        }
    } else {
        assert forall|a: int, b: int| 0 <= a < b < cs2.len() implies cs2[a].component_id
            != cs2[b].component_id by {
            if b == cs2.len() - 1 {
                assert(cs2[a] == cs[a]);
                assert(cs2[b] == slot);
            } else {
                assert(cs2[a] == cs[a] && cs2[b] == cs[b]);
            }
        }
    }
}

/// Whenever the client still maps the server entity `e` to a live entity,
/// that entity's history reads `t` back as confirmed.
pub open spec fn client_confirms(s: ApplyState, e: Entity, t: RepliconTick) -> bool {
    s.to_client.contains_key(e.spec_bits()) ==> {
        let ci = spec_find(s.world.entities, entity_of_bits(s.to_client[e.spec_bits()]));
        ci >= 0 ==> (s.world.entities[ci].confirmed matches Some(h) && h.spec_contains(t))
    }
}

/// A later CHANGES element of the same message cannot unconfirm the tick:
/// either it touches a different entity, or it re-confirms the same tick.
proof fn lemma_change_preserves_confirms(
    s: ApplyState,
    ch: (Entity, Seq<(FnsId, Seq<u8>)>),
    reg: Seq<FnsEntry>,
    tick: RepliconTick,
    e: Entity,
)
    requires
        state_wf(s),
        client_confirms(s, e, tick),
    ensures
        client_confirms(spec_apply_change(s, ch, reg, tick), e, tick),
{
    let r = spec_resolve(s, ch.0);
    lemma_resolve_wf(s, ch.0);
    let s2 = spec_apply_change(s, ch, reg, tick);
    if ch.0 == e {
        lemma_change_confirms_tick(s, ch, reg, tick);
        if r.ok {
            assert(s2.to_client == r.state.to_client);
            let c2 = entity_of_bits(s2.to_client[e.spec_bits()]);
            assert(s2.world.entities[r.index].id == c2);
            lemma_wf_update_helper(r.state, r.index, s2, c2);
            assert(client_confirms(s2, e, tick));
        } else {
            assert(s2 == r.state);
            assert(client_confirms(s2, e, tick));
        }
    } else {
        assert(ch.0.spec_bits() != e.spec_bits()) by {
            if ch.0.spec_bits() == e.spec_bits() {
                crate::entity::lemma_entity_bits_injective(ch.0, e);
            }
        }
        if !r.ok {
            assert(s2 == s);
            assert(client_confirms(s2, e, tick));
        } else if s.to_client.contains_key(ch.0.spec_bits()) {
            // The element lands on an already mapped entity.
            assert(r.state == s);
            if s.to_client.contains_key(e.spec_bits()) {
                let cb = s.to_client[e.spec_bits()];
                let cb2 = s.to_client[ch.0.spec_bits()];
                assert(cb != cb2) by {
                    if cb == cb2 {
                        assert(s.to_server[cb] == e.spec_bits());
                        assert(s.to_server[cb2] == ch.0.spec_bits());
                    }
                }
                let ci = spec_find(s.world.entities, entity_of_bits(cb));
                lemma_spec_find(s.world.entities, entity_of_bits(cb));
                let e2 = WorldEntityView {
                    confirmed: Some(
                        spec_confirm_opt(s.world.entities[r.index].confirmed, tick),
                    ),
                    components: spec_write_components(
                        s.world.entities[r.index].components,
                        ch.1,
                        reg,
                        tick,
                    ),
                    ..s.world.entities[r.index]
                };
                lemma_spec_find_same_id(s.world.entities, r.index, e2, entity_of_bits(cb));
                if ci >= 0 {
                    assert(r.index != ci) by {
                        if r.index == ci {
                            crate::server_entity_map::lemma_entity_bits_inverse(e, cb);
                            crate::server_entity_map::lemma_entity_bits_inverse(e, cb2);
                        }
                    }
                    assert(s2.world.entities[ci] == s.world.entities[ci]);
                }
                assert(client_confirms(s2, e, tick));
            } else {
                assert(client_confirms(s2, e, tick));
            }
        } else {
            // The element spawns a fresh entity and binds it.
            let id = Entity { index: s.world.next_index, generation: 0 };
            lemma_entity_bits_inverse(id, 0);
            if s2.to_client.contains_key(e.spec_bits()) {
                assert(s.to_client.contains_key(e.spec_bits()));
                assert(s2.to_client[e.spec_bits()] == s.to_client[e.spec_bits()]);
                let cb = s.to_client[e.spec_bits()];
                let c = entity_of_bits(cb);
                let ci = spec_find(s.world.entities, c);
                if ci >= 0 {
                    lemma_spec_find(s.world.entities, c);
                    assert(c.index < s.world.next_index);
                    let fresh = spec_fresh_entity(s.world.next_index, true);
                    lemma_spec_find_push(s.world.entities, fresh, c);
                    let pushed = s.world.entities.push(fresh);
                    let e2 = WorldEntityView {
                        confirmed: Some(spec_confirm_opt(pushed[r.index].confirmed, tick)),
                        components: spec_write_components(
                            pushed[r.index].components,
                            ch.1,
                            reg,
                            tick,
                        ),
                        ..pushed[r.index]
                    };
                    lemma_spec_find_same_id(pushed, r.index, e2, c);
                    assert(r.index != ci);
                    assert(s2.world.entities[ci] == s.world.entities[ci]);
                } else {
                    let fresh = spec_fresh_entity(s.world.next_index, true);
                    let pushed = s.world.entities.push(fresh);
                    if c == id {
                        // The stale pair happens to name the identifier just
                        // spawned: the spawned entity confirms the tick.
                        lemma_change_confirms_tick(s, ch, reg, tick);
                        lemma_wf_update_helper(r.state, r.index, s2, c);
                    } else {
                        lemma_spec_find_push_neg(s.world.entities, fresh, c);
                        let e2 = WorldEntityView {
                            confirmed: Some(spec_confirm_opt(pushed[r.index].confirmed, tick)),
                            components: spec_write_components(
                                pushed[r.index].components,
                                ch.1,
                                reg,
                                tick,
                            ),
                            ..pushed[r.index]
                        };
                        lemma_spec_find_same_id(pushed, r.index, e2, c);
                    }
                }
                assert(client_confirms(s2, e, tick));
            } else {
                assert(client_confirms(s2, e, tick));
            }
        }
    }
}

/// An identifier absent from the store stays absent when a different one is
/// pushed.
proof fn lemma_spec_find_push_neg(es: Seq<WorldEntityView>, y: WorldEntityView, id: Entity)
    requires
        spec_find(es, id) < 0,
        y.id != id,
    ensures
        spec_find(es.push(y), id) < 0,
    decreases es.len(),
{
    let p = es.push(y);
    if es.len() == 0 {
        assert(p[0] == y);
        assert(p.skip(1) =~= Seq::<WorldEntityView>::empty());
        assert(spec_find(Seq::<WorldEntityView>::empty(), id) == -1);
        assert(spec_find(p, id) == -1);
    } else {
        assert(p[0] == es[0]);
        if es[0].id != id {
            assert(p.skip(1) =~= es.skip(1).push(y));
            lemma_spec_find_push_neg(es.skip(1), y, id);
            assert(spec_find(p.skip(1), id) < 0);
            assert(spec_find(p, id) == -1);
        }
    }
}

/// Helper: after the element's own update, the confirming entity is still
/// found at the same place.
proof fn lemma_wf_update_helper(rs: ApplyState, i: int, s2: ApplyState, c: Entity)
    requires
        0 <= i < rs.world.entities.len(),
        0 <= i < s2.world.entities.len(),
        s2.world.entities.len() == rs.world.entities.len(),
        s2.world.entities == rs.world.entities.update(i, s2.world.entities[i]),
        s2.world.entities[i].id == rs.world.entities[i].id,
        s2.world.entities[i].id == c,
        forall|a: int, b: int|
            0 <= a < b < rs.world.entities.len() ==> rs.world.entities[a].id
                != rs.world.entities[b].id,
    ensures
        spec_find(s2.world.entities, c) == i,
{
    lemma_spec_find_same_id(rs.world.entities, i, s2.world.entities[i], c);
    lemma_spec_find(rs.world.entities, c);
    if spec_find(rs.world.entities, c) != i {
        let j = spec_find(rs.world.entities, c);
        if j >= 0 {
            assert(rs.world.entities[j].id == c);
            assert(rs.world.entities[i].id == c);
        } else {
            lemma_spec_find_neg(rs.world.entities, c, i);
        }
    }
}

/// A negative lookup means no position holds the identifier.
proof fn lemma_spec_find_neg(es: Seq<WorldEntityView>, id: Entity, k: int)
    requires
        0 <= k < es.len(),
        es[k].id == id,
    ensures
        spec_find(es, id) >= 0,
    decreases es.len(),
{
    if es[0].id != id {
        assert(es.skip(1)[k - 1] == es[k]);
        lemma_spec_find_neg(es.skip(1), id, k - 1);
    }
}

/// The confirmed-tick law for a whole update message: every entity the
/// message mentions in CHANGES has, right after the message applies, a
/// history that reads the message's tick back as confirmed, as long as the
/// entity is still mapped to a live client entity.
pub proof fn lemma_update_confirms_changed(
    s: ApplyState,
    m: UpdateMessageView,
    reg: Seq<FnsEntry>,
    k: int,
)
    requires
        state_wf(s),
        0 <= k < m.changes.len(),
    ensures
        client_confirms(spec_apply_update(s, m, reg), m.changes[k].0, m.tick),
{
    let s0 = ApplyState { update_tick: RepliconTick(tick_max(m.tick.0, s.update_tick.0)), ..s };
    let s1 = spec_apply_mappings(s0, m.mappings);
    let s2 = spec_apply_despawns(s1, m.despawns);
    let s3 = spec_apply_removals(s2, m.removals, reg, m.tick);
    lemma_mappings_fold_wf(s0, m.mappings);
    lemma_despawns_fold_wf(s1, m.despawns);
    lemma_removals_fold_wf(s2, m.removals, reg, m.tick);
    lemma_changes_fold_confirms(s3, m.changes, reg, m.tick, k);
}

/// The CHANGES fold confirms the tick for every entity it mentions.
proof fn lemma_changes_fold_confirms(
    s: ApplyState,
    cs: Seq<(Entity, Seq<(FnsId, Seq<u8>)>)>,
    reg: Seq<FnsEntry>,
    tick: RepliconTick,
    k: int,
)
    requires
        state_wf(s),
        0 <= k < cs.len(),
    ensures
        client_confirms(spec_apply_changes(s, cs, reg, tick), cs[k].0, tick),
    decreases cs.len(),
{
    let s1 = spec_apply_change(s, cs[0], reg, tick);
    lemma_change_wf(s, cs[0], reg, tick);
    if k == 0 {
        lemma_change_confirms_tick(s, cs[0], reg, tick);
        let r = spec_resolve(s, cs[0].0);
        lemma_resolve_wf(s, cs[0].0);
        if r.ok {
            lemma_wf_update_helper(
                r.state,
                r.index,
                s1,
                entity_of_bits(s1.to_client[cs[0].0.spec_bits()]),
            );
        }
        lemma_changes_preserve_confirms_fold(s1, cs.skip(1), reg, tick, cs[0].0);
    } else {
        assert(cs.skip(1)[k - 1] == cs[k]);
        lemma_changes_fold_confirms(s1, cs.skip(1), reg, tick, k - 1);
    }
}

/// Once confirmed, the tick stays confirmed through the rest of the fold.
proof fn lemma_changes_preserve_confirms_fold(
    s: ApplyState,
    cs: Seq<(Entity, Seq<(FnsId, Seq<u8>)>)>,
    reg: Seq<FnsEntry>,
    tick: RepliconTick,
    e: Entity,
)
    requires
        state_wf(s),
        client_confirms(s, e, tick),
    ensures
        client_confirms(spec_apply_changes(s, cs, reg, tick), e, tick),
    decreases cs.len(),
{
    if cs.len() > 0 {
        lemma_change_preserves_confirms(s, cs[0], reg, tick, e);
        lemma_change_wf(s, cs[0], reg, tick);
        lemma_changes_preserve_confirms_fold(
            spec_apply_change(s, cs[0], reg, tick),
            cs.skip(1),
            reg,
            tick,
            e,
        );
    }
}

/// The MAPPINGS fold keeps the state well formed.
proof fn lemma_mappings_fold_wf(s: ApplyState, ms: Seq<(Entity, Entity)>)
    requires
        state_wf(s),
    ensures
        state_wf(spec_apply_mappings(s, ms)),
    decreases ms.len(),
{
    if ms.len() > 0 {
        lemma_mapping_wf(s, ms[0]);
        lemma_mappings_fold_wf(spec_apply_mapping(s, ms[0]), ms.skip(1));
    }
}

/// One MAPPINGS element keeps the state well formed.
proof fn lemma_mapping_wf(s: ApplyState, m: (Entity, Entity))
    requires
        state_wf(s),
    ensures
        state_wf(spec_apply_mapping(s, m)),
{
    let ci = spec_find(s.world.entities, m.1);
    if ci >= 0 {
        lemma_spec_find(s.world.entities, m.1);
        let e2 = WorldEntityView { replicated: true, ..s.world.entities[ci] };
        lemma_wf_update(s.world, ci, e2);
        lemma_map_insert_wf(s.to_client, s.to_server, m.0.spec_bits(), m.1.spec_bits());
    }
}

/// The DESPAWNS fold keeps the state well formed.
proof fn lemma_despawns_fold_wf(s: ApplyState, ds: Seq<Entity>)
    requires
        state_wf(s),
    ensures
        state_wf(spec_apply_despawns(s, ds)),
    decreases ds.len(),
{
    if ds.len() > 0 {
        lemma_despawn_wf(s, ds[0]);
        lemma_despawns_fold_wf(spec_apply_despawn(s, ds[0]), ds.skip(1));
    }
}

/// One DESPAWNS element keeps the state well formed.
proof fn lemma_despawn_wf(s: ApplyState, se: Entity)
    requires
        state_wf(s),
    ensures
        state_wf(spec_apply_despawn(s, se)),
{
    if s.to_client.contains_key(se.spec_bits()) {
        lemma_map_remove_wf(s.to_client, s.to_server, se.spec_bits());
        let cb = s.to_client[se.spec_bits()];
        let ci = spec_find(s.world.entities, entity_of_bits(cb));
        if ci >= 0 {
            lemma_spec_find(s.world.entities, entity_of_bits(cb));
            lemma_wf_remove(s.world, ci);
        }
    }
}

/// The REMOVALS fold keeps the state well formed.
proof fn lemma_removals_fold_wf(
    s: ApplyState,
    rs: Seq<(Entity, Seq<FnsId>)>,
    reg: Seq<FnsEntry>,
    tick: RepliconTick,
)
    requires
        state_wf(s),
    ensures
        state_wf(spec_apply_removals(s, rs, reg, tick)),
    decreases rs.len(),
{
    if rs.len() > 0 {
        lemma_removal_wf(s, rs[0], reg, tick);
        lemma_removals_fold_wf(spec_apply_removal(s, rs[0], reg, tick), rs.skip(1), reg, tick);
    }
}

/// One REMOVALS element keeps the state well formed.
proof fn lemma_removal_wf(
    s: ApplyState,
    rm: (Entity, Seq<FnsId>),
    reg: Seq<FnsEntry>,
    tick: RepliconTick,
)
    requires
        state_wf(s),
    ensures
        state_wf(spec_apply_removal(s, rm, reg, tick)),
{
    let r = spec_resolve(s, rm.0);
    lemma_resolve_wf(s, rm.0);
    if r.ok {
        let e = r.state.world.entities[r.index];
        let e2 = WorldEntityView {
            confirmed: Some(spec_confirm_opt(e.confirmed, tick)),
            components: spec_remove_fns(e.components, rm.1, reg),
            ..e
        };
        lemma_remove_fns_wf(e.components, rm.1, reg);
        lemma_wf_update(r.state.world, r.index, e2);
    }
}

/// Dropping components preserves per-entity uniqueness of types.
proof fn lemma_remove_fns_wf(cs: Seq<ComponentSlotView>, ids: Seq<FnsId>, reg: Seq<FnsEntry>)
    requires
        forall|a: int, b: int|
            0 <= a < b < cs.len() ==> cs[a].component_id != cs[b].component_id,
    ensures
        ({
            let cs2 = spec_remove_fns(cs, ids, reg);
            forall|a: int, b: int|
                0 <= a < b < cs2.len() ==> cs2[a].component_id != cs2[b].component_id
        }),
    decreases ids.len(),
{
    if ids.len() > 0 {
        if ids[0].0 < reg.len() {
            let cid = reg[ids[0].0 as int].component_id;
            let cs1 = spec_remove_slot(cs, cid);
            crate::world::lemma_slot_index(cs, cid);
            let j = crate::world::slot_index(cs, cid);
            if j >= 0 {
                assert forall|a: int, b: int| 0 <= a < b < cs1.len() implies cs1[a].component_id
                    != cs1[b].component_id by {
                    assert(cs1[a] == if a < j {
                        cs[a]
                    } else {
                        cs[a + 1]
                    });
                    assert(cs1[b] == if b < j {
                        cs[b]
                    } else {
                        cs[b + 1]
                    });
                }
            }
            lemma_remove_fns_wf(cs1, ids.skip(1), reg);
            assert(spec_remove_fns(cs, ids, reg) == spec_remove_fns(cs1, ids.skip(1), reg));
        } else {
            lemma_remove_fns_wf(cs, ids.skip(1), reg);
            assert(spec_remove_fns(cs, ids, reg) == spec_remove_fns(cs, ids.skip(1), reg));
        }
    } else {
        assert(spec_remove_fns(cs, ids, reg) == cs);
    }
}

/// The acknowledgment law: when a batch of received mutate messages is
/// taken in cleanly, the acknowledgment bytes hold, for every received
/// message in arrival order, exactly the two little-endian bytes of that
/// message's fragment index.
pub proof fn lemma_acks_cover_every_message(
    buf: Seq<crate::buffered::BufferedMutateView>,
    msgs: Seq<Seq<u8>>,
    track: bool,
    k: int,
)
    requires
        spec_buffer_all(buf, msgs, track).1 is Some,
        0 <= k < msgs.len(),
    ensures
        spec_buffer_all(buf, msgs, track).1->Some_0.len() == 2 * msgs.len(),
        ({
            let acks = spec_buffer_all(buf, msgs, track).1->Some_0;
            crate::messages::mutate_header_parse(msgs[k], track) matches Some(h) && acks.subrange(
                2 * k,
                2 * k + 2,
            ) == crate::codec::u16_le_bytes(h.0.mutate_index)
        }),
    decreases msgs.len(),
{
    let (b1, idx) = spec_buffer_one(buf, msgs[0], track)->Some_0;
    let acks = spec_buffer_all(buf, msgs, track).1->Some_0;
    let rest = spec_buffer_all(b1, msgs.skip(1), track).1->Some_0;
    lemma_acks_len(b1, msgs.skip(1), track);
    assert(acks == crate::codec::u16_le_bytes(idx) + rest);
    if k == 0 {
        assert(acks.subrange(0, 2) =~= crate::codec::u16_le_bytes(idx));
    } else {
        assert(msgs.skip(1)[k - 1] == msgs[k]);
        lemma_acks_cover_every_message(b1, msgs.skip(1), track, k - 1);
        assert(acks.subrange(2 * k, 2 * k + 2) =~= rest.subrange(2 * (k - 1), 2 * (k - 1) + 2));
    }
}

/// A clean batch owes exactly two acknowledgment bytes per message.
proof fn lemma_acks_len(
    buf: Seq<crate::buffered::BufferedMutateView>,
    msgs: Seq<Seq<u8>>,
    track: bool,
)
    requires
        spec_buffer_all(buf, msgs, track).1 is Some,
    ensures
        spec_buffer_all(buf, msgs, track).1->Some_0.len() == 2 * msgs.len(),
    decreases msgs.len(),
{
    if msgs.len() > 0 {
        let (b1, _idx) = spec_buffer_one(buf, msgs[0], track)->Some_0;
        lemma_acks_len(b1, msgs.skip(1), track);
    }
}

/// Copies a byte vector.
fn clone_bytes(data: &Vec<u8>) -> (r: Vec<u8>)
    ensures
        r@ == data@,
{
    let mut out: Vec<u8> = Vec::new();
    let mut i: usize = 0;
    while i < data.len()
        invariant
            i <= data@.len(),
            out@ == data@.take(i as int),
        decreases data@.len() - i,
    {
        out.push(data[i]);
        proof {
            assert(data@.take(i as int).push(data@[i as int]) =~= data@.take(i as int + 1));
        }
        i = i + 1;
    }
    proof {
        assert(data@.take(data@.len() as int) =~= data@);
    }
    out
}

} // verus!
