use vstd::prelude::*;

verus! {

use crate::confirmed::Confirmed;
use crate::entity::Entity;
use crate::tick::RepliconTick;

/// One component value on an entity: the world's id for the component type,
/// the value's serialized bytes, and the tick that last wrote it.
pub struct ComponentSlot {
    pub component_id: u64,
    pub data: Vec<u8>,
    pub tick: RepliconTick,
}

/// The mathematical shape of a component slot.
#[verifier::ext_equal]
pub ghost struct ComponentSlotView {
    pub component_id: u64,
    pub data: Seq<u8>,
    pub tick: RepliconTick,
}

impl View for ComponentSlot {
    type V = ComponentSlotView;

    open spec fn view(&self) -> ComponentSlotView {
        ComponentSlotView { component_id: self.component_id, data: self.data@, tick: self.tick }
    }
}

/// The index of the slot holding `cid`, or a negative value when none does.
pub open spec fn slot_index(cs: Seq<ComponentSlotView>, cid: u64) -> int
    decreases cs.len(),
{
    if cs.len() == 0 {
        -1
    } else if cs[0].component_id == cid {
        0
    } else {
        let r = slot_index(cs.skip(1), cid);
        if r < 0 {
            -1
        } else {
            1 + r
        }
    }
}

/// A found slot index is in range and names the first occurrence.
pub proof fn lemma_slot_index(cs: Seq<ComponentSlotView>, cid: u64)
    ensures
        slot_index(cs, cid) >= 0 ==> slot_index(cs, cid) < cs.len() && cs[slot_index(
            cs,
            cid,
        )].component_id == cid,
        slot_index(cs, cid) < 0 ==> forall|k: int|
            0 <= k < cs.len() ==> cs[k].component_id != cid,
    decreases cs.len(),
{
    if cs.len() > 0 && cs[0].component_id != cid {
        lemma_slot_index(cs.skip(1), cid);
        if slot_index(cs, cid) < 0 {
            assert forall|k: int| 0 <= k < cs.len() implies cs[k].component_id != cid by {
                if k > 0 {
                    assert(cs.skip(1)[k - 1] == cs[k]);
                }
            }
        }
    }
}

/// One entity of the modelled client world: its identifier, whether it
/// carries the replication marker, whether its markers ask to keep mutation
/// history, its confirmed-tick history once it has received anything, and
/// its replicated components.
pub struct WorldEntity {
    pub id: Entity,
    pub replicated: bool,
    pub needs_history: bool,
    pub confirmed: Option<Confirmed>,
    pub components: Vec<ComponentSlot>,
}

/// The mathematical shape of a world entity.
#[verifier::ext_equal]
pub ghost struct WorldEntityView {
    pub id: Entity,
    pub replicated: bool,
    pub needs_history: bool,
    pub confirmed: Option<Confirmed>,
    pub components: Seq<ComponentSlotView>,
}

impl View for WorldEntity {
    type V = WorldEntityView;

    open spec fn view(&self) -> WorldEntityView {
        WorldEntityView {
            id: self.id,
            replicated: self.replicated,
            needs_history: self.needs_history,
            confirmed: self.confirmed,
            components: self.components@.map_values(|c: ComponentSlot| c@),
        }
    }
}

/// Each component type appears at most once on an entity.
pub open spec fn entity_wf(e: WorldEntityView) -> bool {
    forall|i: int, j: int|
        0 <= i < j < e.components.len() ==> e.components[i].component_id
            != e.components[j].component_id
}

impl WorldEntity {
    /// Confirms `tick` for this entity, starting a history at `tick` when
    /// none exists yet.
    pub fn confirm(&mut self, tick: RepliconTick)
        ensures
            *final(self) == (WorldEntity {
                confirmed: Some(spec_confirm_opt(old(self)@.confirmed, tick)),
                ..*old(self)
            }),
    {
        match &mut self.confirmed {
            Some(c) => {
                c.set(tick);
            },
            None => {
                self.confirmed = Some(Confirmed::new(tick));
            },
        }
    }

    /// Advances the history window to a newer tick, leaving older ticks as
    /// they were.
    pub fn advance_confirmed(&mut self, tick: RepliconTick)
        requires
            old(self).confirmed is Some,
        ensures
            *final(self) == (WorldEntity {
                confirmed: Some(old(self).confirmed->Some_0.spec_advance(tick)),
                ..*old(self)
            }),
    {
        match &mut self.confirmed {
            Some(c) => {
                c.set_last_tick(tick);
            },
            None => {
            },
        }
    }

    /// Confirms the tick `ago` ticks before the history's latest one.
    pub fn confirm_ago(&mut self, ago: u32)
        requires
            old(self).confirmed is Some,
            ago < 64,
        ensures
            *final(self) == (WorldEntity {
                confirmed: Some(
                    Confirmed {
                        mask: old(self).confirmed->Some_0.mask | (1u64 << ago as u64),
                        last_tick: old(self).confirmed->Some_0.last_tick,
                    },
                ),
                ..*old(self)
            }),
    {
        match &mut self.confirmed {
            Some(c) => {
                c.set_ago(ago);
            },
            None => {
            },
        }
    }

    /// Writes one component value, replacing the slot for its type or adding
    /// a new one.
    pub fn set_component(&mut self, component_id: u64, data: Vec<u8>, tick: RepliconTick)
        ensures
            final(self)@ == (WorldEntityView {
                components: spec_set_slot(
                    old(self)@.components,
                    ComponentSlotView { component_id, data: data@, tick },
                ),
                ..old(self)@
            }),
            entity_wf(old(self)@) ==> entity_wf(final(self)@),
    {
        let ghost oldcs = self@.components;
        proof {
            lemma_slot_index(oldcs, component_id);
        }
        let slot = ComponentSlot { component_id, data, tick };
        match self.find_component(component_id) {
            Some(j) => {
                self.components.set(j, slot);
                proof {
                    assert(self@.components =~~= spec_set_slot(oldcs, slot@));
                }
            },
            None => {
                self.components.push(slot);
                proof {
                    assert(self@.components =~~= spec_set_slot(oldcs, slot@));
                }
            },
        }
    }

    /// Writes one component value unless the entity already holds a strictly
    /// newer value of that type: how history-consuming entities take old
    /// mutations without clobbering newer state.
    pub fn set_component_if_newer(&mut self, component_id: u64, data: Vec<u8>, tick: RepliconTick)
        ensures
            final(self)@ == (WorldEntityView {
                components: spec_set_slot_gated(
                    old(self)@.components,
                    ComponentSlotView { component_id, data: data@, tick },
                ),
                ..old(self)@
            }),
            entity_wf(old(self)@) ==> entity_wf(final(self)@),
    {
        let ghost oldcs = self@.components;
        proof {
            lemma_slot_index(oldcs, component_id);
        }
        match self.find_component(component_id) {
            Some(j) => {
                let newer = self.components[j].tick.is_newer_than(tick);
                if !newer {
                    self.components.set(j, ComponentSlot { component_id, data, tick });
                    proof {
                        assert(self@.components =~~= spec_set_slot_gated(
                            oldcs,
                            ComponentSlotView { component_id, data: data@, tick },
                        ));
                    }
                }
            },
            None => {
                self.components.push(ComponentSlot { component_id, data, tick });
                proof {
                    assert(self@.components =~~= spec_set_slot_gated(
                        oldcs,
                        ComponentSlotView { component_id, data: data@, tick },
                    ));
                }
            },
        }
    }

    /// Drops the slot for `component_id`, if the entity has one.
    pub fn remove_component(&mut self, component_id: u64)
        ensures
            final(self)@ == (WorldEntityView {
                components: spec_remove_slot(old(self)@.components, component_id),
                ..old(self)@
            }),
            entity_wf(old(self)@) ==> entity_wf(final(self)@),
    {
        let ghost oldcs = self@.components;
        proof {
            lemma_slot_index(oldcs, component_id);
        }
        match self.find_component(component_id) {
            Some(j) => {
                self.components.remove(j);
                proof {
                    assert(self@.components =~~= spec_remove_slot(oldcs, component_id));
                }
            },
            None => {
                proof {
                    assert(self@.components =~~= spec_remove_slot(oldcs, component_id));
                }
            },
        }
    }

    /// The position of the slot for `component_id`, if the entity has one.
    pub fn find_component(&self, component_id: u64) -> (r: Option<usize>)
        ensures
            match r {
                Some(j) => j < self@.components.len() && j as int == slot_index(
                    self@.components,
                    component_id,
                ),
                None => slot_index(self@.components, component_id) < 0,
            },
    {
        let ghost cs = self@.components;
        proof {
            assert(cs.skip(0) =~= cs);
        }
        let mut i: usize = 0;
        while i < self.components.len()
            invariant
                i <= cs.len(),
                cs.len() == self.components@.len(),
                cs == self@.components,
                slot_index(cs, component_id) == (if slot_index(cs.skip(i as int), component_id)
                    < 0 {
                    -1int
                } else {
                    i + slot_index(cs.skip(i as int), component_id)
                }),
            decreases cs.len() - i,
        {
            proof {
                assert(cs.skip(i as int)[0] == cs[i as int]);
                assert(cs.skip(i as int).skip(1) =~= cs.skip(i as int + 1));
            }
            if self.components[i].component_id == component_id {
                return Some(i);
            }
            i = i + 1;
        }
        proof {
            assert(cs.skip(cs.len() as int).len() == 0);
        }
        None
    }

    /// A borrowed view of the slot for `component_id`, if the entity has one.
    pub fn get_component(&self, component_id: u64) -> (r: Option<&ComponentSlot>)
        ensures
            match r {
                Some(c) => slot_index(self@.components, component_id) >= 0 && c@
                    == self@.components[slot_index(self@.components, component_id)],
                None => slot_index(self@.components, component_id) < 0,
            },
    {
        match self.find_component(component_id) {
            Some(j) => {
                proof {
                    lemma_slot_index(self@.components, component_id);
                }
                Some(&self.components[j])
            },
            None => None,
        }
    }
}

/// The history after confirming `tick`, starting fresh when none existed.
pub open spec fn spec_confirm_opt(c: Option<Confirmed>, tick: RepliconTick) -> Confirmed {
    match c {
        Some(h) => h.spec_confirm(tick),
        None => Confirmed { mask: 1u64, last_tick: tick },
    }
}

/// The components after writing `slot`: in place of the old slot of its
/// type, or appended when the type was absent.
pub open spec fn spec_set_slot(cs: Seq<ComponentSlotView>, slot: ComponentSlotView) -> Seq<
    ComponentSlotView,
> {
    let j = slot_index(cs, slot.component_id);
    if j >= 0 {
        cs.update(j, slot)
    } else {
        cs.push(slot)
    }
}

/// The components after writing `slot`, unless a strictly newer value of the
/// same type is already held.
pub open spec fn spec_set_slot_gated(cs: Seq<ComponentSlotView>, slot: ComponentSlotView) -> Seq<
    ComponentSlotView,
> {
    let j = slot_index(cs, slot.component_id);
    if j >= 0 && crate::tick::tick_gt(cs[j].tick.0, slot.tick.0) {
        cs
    } else {
        spec_set_slot(cs, slot)
    }
}

/// The components after dropping the slot for `cid`, if any.
pub open spec fn spec_remove_slot(cs: Seq<ComponentSlotView>, cid: u64) -> Seq<ComponentSlotView> {
    let j = slot_index(cs, cid);
    if j >= 0 {
        cs.remove(j)
    } else {
        cs
    }
}

/// An in-memory entity store standing for the client's world: exactly what
/// the replication rules read and write of it. The real entity-component
/// store is an outside collaborator; a thin adapter can mirror these
/// transitions onto it.
pub struct ClientWorld {
    pub entities: Vec<WorldEntity>,
    pub next_index: u32,
}

/// The mathematical shape of the world.
#[verifier::ext_equal]
pub ghost struct ClientWorldView {
    pub entities: Seq<WorldEntityView>,
    pub next_index: u32,
}

impl View for ClientWorld {
    type V = ClientWorldView;

    open spec fn view(&self) -> ClientWorldView {
        ClientWorldView {
            entities: self.entities@.map_values(|e: WorldEntity| e@),
            next_index: self.next_index,
        }
    }
}

/// The index of the entity with identifier `id`, or a negative value.
pub open spec fn spec_find(es: Seq<WorldEntityView>, id: Entity) -> int
    decreases es.len(),
{
    if es.len() == 0 {
        -1
    } else if es[0].id == id {
        0
    } else {
        let r = spec_find(es.skip(1), id);
        if r < 0 {
            -1
        } else {
            1 + r
        }
    }
}

/// A found entity index is in range and names the first occurrence.
pub proof fn lemma_spec_find(es: Seq<WorldEntityView>, id: Entity)
    ensures
        spec_find(es, id) >= 0 ==> spec_find(es, id) < es.len() && es[spec_find(es, id)].id == id,
        spec_find(es, id) < 0 ==> forall|k: int| 0 <= k < es.len() ==> es[k].id != id,
    decreases es.len(),
{
    if es.len() > 0 && es[0].id != id {
        lemma_spec_find(es.skip(1), id);
        if spec_find(es, id) < 0 {
            assert forall|k: int| 0 <= k < es.len() implies es[k].id != id by {
                if k > 0 {
                    assert(es.skip(1)[k - 1] == es[k]);
                }
            }
        }
    }
}

/// Identifiers are unique, below the allocation watermark, and every entity
/// holds each component type at most once.
pub open spec fn world_wf(w: ClientWorldView) -> bool {
    &&& forall|i: int, j: int| 0 <= i < j < w.entities.len() ==> w.entities[i].id != w.entities[j].id
    &&& forall|i: int| 0 <= i < w.entities.len() ==> (#[trigger] w.entities[i]).id.index
        < w.next_index
    &&& forall|i: int| 0 <= i < w.entities.len() ==> entity_wf(#[trigger] w.entities[i])
}

/// A fresh entity as `spawn` makes it.
pub open spec fn spec_fresh_entity(index: u32, replicated: bool) -> WorldEntityView {
    WorldEntityView {
        id: Entity { index, generation: 0 },
        replicated,
        needs_history: false,
        confirmed: None,
        components: Seq::empty(),
    }
}

impl ClientWorld {
    /// An empty world.
    pub fn new() -> (r: Self)
        ensures
            r@.entities == Seq::<WorldEntityView>::empty(),
            r@.next_index == 0,
            world_wf(r@),
    {
        let r = Self { entities: Vec::new(), next_index: 0 };
        proof {
            assert(r@.entities =~= Seq::<WorldEntityView>::empty());
        }
        r
    }

    /// How many entities exist.
    pub fn len(&self) -> (r: usize)
        ensures
            r == self@.entities.len(),
    {
        self.entities.len()
    }

    /// Spawns a fresh entity, with or without the replication marker.
    pub fn spawn(&mut self, replicated: bool) -> (r: Entity)
        requires
            old(self)@.next_index < 0xFFFF_FFFF,
            world_wf(old(self)@),
        ensures
            final(self)@.entities == old(self)@.entities.push(
                spec_fresh_entity(old(self)@.next_index, replicated),
            ),
            final(self)@.next_index == old(self)@.next_index + 1,
            world_wf(final(self)@),
            r == (Entity { index: old(self)@.next_index, generation: 0 }),
    {
        let id = Entity { index: self.next_index, generation: 0 };
        let e = WorldEntity {
            id,
            replicated,
            needs_history: false,
            confirmed: None,
            components: Vec::new(),
        };
        self.entities.push(e);
        self.next_index = self.next_index + 1;
        proof {
            assert(self@.entities =~~= old(self)@.entities.push(
                spec_fresh_entity(old(self)@.next_index, replicated),
            ));
        }
        id
    }

    /// The position of the entity with identifier `id`, if it exists.
    pub fn find_entity(&self, id: Entity) -> (r: Option<usize>)
        ensures
            match r {
                Some(j) => j < self@.entities.len() && j as int == spec_find(self@.entities, id),
                None => spec_find(self@.entities, id) < 0,
            },
    {
        let ghost es = self@.entities;
        proof {
            assert(es.skip(0) =~= es);
        }
        let mut i: usize = 0;
        while i < self.entities.len()
            invariant
                i <= es.len(),
                es.len() == self.entities@.len(),
                es == self@.entities,
                spec_find(es, id) == (if spec_find(es.skip(i as int), id) < 0 {
                    -1int
                } else {
                    i + spec_find(es.skip(i as int), id)
                }),
            decreases es.len() - i,
        {
            proof {
                assert(es.skip(i as int)[0] == es[i as int]);
                assert(es.skip(i as int).skip(1) =~= es.skip(i as int + 1));
            }
            let candidate = &self.entities[i];
            if candidate.id.index == id.index && candidate.id.generation == id.generation {
                return Some(i);
            }
            i = i + 1;
        }
        proof {
            assert(es.skip(es.len() as int).len() == 0);
        }
        None
    }

    /// Takes the entity at `i` out of the world for editing.
    pub fn take_entity(&mut self, i: usize) -> (r: WorldEntity)
        requires
            i < old(self)@.entities.len(),
        ensures
            final(self)@.entities == old(self)@.entities.remove(i as int),
            final(self)@.next_index == old(self)@.next_index,
            r@ == old(self)@.entities[i as int],
    {
        let r = self.entities.remove(i);
        proof {
            assert(self@.entities =~~= old(self)@.entities.remove(i as int));
        }
        r
    }

    /// Puts an edited entity back at `i`.
    pub fn put_entity(&mut self, i: usize, e: WorldEntity)
        requires
            i <= old(self)@.entities.len(),
        ensures
            final(self)@.entities == old(self)@.entities.insert(i as int, e@),
            final(self)@.next_index == old(self)@.next_index,
    {
        self.entities.insert(i, e);
        proof {
            assert(self@.entities =~~= old(self)@.entities.insert(i as int, e@));
        }
    }

    /// Removes the entity at `i` from the world.
    pub fn despawn_at(&mut self, i: usize)
        requires
            i < old(self)@.entities.len(),
        ensures
            final(self)@.entities == old(self)@.entities.remove(i as int),
            final(self)@.next_index == old(self)@.next_index,
    {
        self.entities.remove(i);
        proof {
            assert(self@.entities =~~= old(self)@.entities.remove(i as int));
        }
    }

    /// A borrowed view of the entity at `i`.
    pub fn entity_at(&self, i: usize) -> (r: &WorldEntity)
        requires
            i < self@.entities.len(),
        ensures
            r@ == self@.entities[i as int],
    {
        &self.entities[i]
    }

    /// Marks the entity at `i` as consuming mutation history.
    pub fn set_needs_history(&mut self, i: usize, value: bool)
        requires
            i < old(self)@.entities.len(),
        ensures
            final(self)@.entities == old(self)@.entities.update(
                i as int,
                WorldEntityView { needs_history: value, ..old(self)@.entities[i as int] },
            ),
            final(self)@.next_index == old(self)@.next_index,
    {
        let mut e = self.take_entity(i);
        e.needs_history = value;
        proof {
            let ghost v = WorldEntityView { needs_history: value, ..old(self)@.entities[i as int] };
            assert(e@ == v);
        }
        self.put_entity(i, e);
        proof {
            assert(old(self)@.entities.remove(i as int).insert(
                i as int,
                WorldEntityView { needs_history: value, ..old(self)@.entities[i as int] },
            ) =~= old(self)@.entities.update(
                i as int,
                WorldEntityView { needs_history: value, ..old(self)@.entities[i as int] },
            ));
        }
    }
}

} // verus!
