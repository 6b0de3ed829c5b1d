use vstd::prelude::*;

verus! {

use crate::codec::{
    varint_parse, compact_parse, u32_le_parse, read_varint, read_compact, read_u32_le, DecodeError,
    lemma_varint_parse_len, leb_bytes, compact_bytes, u32_le_bytes,
};
use crate::entity::Entity;
use crate::entity_serde::{entity_parse, deserialize_entity, lemma_entity_parse_len, entity_bytes};
use crate::registry::{FnsId, FnsEntry, ReplicationRegistry};
use crate::tick::RepliconTick;

// ---------------------------------------------------------------------------
// Message flags
// ---------------------------------------------------------------------------

/// Bit for a MAPPINGS array in an update message.
pub const FLAG_MAPPINGS: u8 = 1;

/// Bit for a DESPAWNS array in an update message.
pub const FLAG_DESPAWNS: u8 = 2;

/// Bit for a REMOVALS array in an update message.
pub const FLAG_REMOVALS: u8 = 4;

/// Bit for a CHANGES array in an update message.
pub const FLAG_CHANGES: u8 = 8;

pub open spec fn has_mappings(f: u8) -> bool {
    f % 2 == 1
}

pub open spec fn has_despawns(f: u8) -> bool {
    (f / 2) % 2 == 1
}

pub open spec fn has_removals(f: u8) -> bool {
    (f / 4) % 2 == 1
}

pub open spec fn has_changes(f: u8) -> bool {
    (f / 8) % 2 == 1
}

/// The last set flag's array is framed dynamically: it runs to the end of
/// the message with no length prefix, saving its count bytes.
pub open spec fn mappings_is_last(f: u8) -> bool {
    !has_despawns(f) && !has_removals(f) && !has_changes(f)
}

pub open spec fn despawns_is_last(f: u8) -> bool {
    !has_removals(f) && !has_changes(f)
}

pub open spec fn removals_is_last(f: u8) -> bool {
    !has_changes(f)
}

// ---------------------------------------------------------------------------
// Decoded message shapes
// ---------------------------------------------------------------------------

/// A component insertion or mutation for one entity: which registered type,
/// and one serialized value of that type.
pub struct ComponentChange {
    pub fns_id: FnsId,
    pub data: Vec<u8>,
}

impl View for ComponentChange {
    type V = (FnsId, Seq<u8>);

    open spec fn view(&self) -> (FnsId, Seq<u8>) {
        (self.fns_id, self.data@)
    }
}

/// The component removals an update message carries for one entity.
pub struct EntityRemovals {
    pub entity: Entity,
    pub fns_ids: Vec<FnsId>,
}

impl View for EntityRemovals {
    type V = (Entity, Seq<FnsId>);

    open spec fn view(&self) -> (Entity, Seq<FnsId>) {
        (self.entity, self.fns_ids@)
    }
}

/// The component insertions and mutations an update message carries for one
/// entity.
pub struct EntityChanges {
    pub entity: Entity,
    pub components: Vec<ComponentChange>,
}

impl View for EntityChanges {
    type V = (Entity, Seq<(FnsId, Seq<u8>)>);

    open spec fn view(&self) -> (Entity, Seq<(FnsId, Seq<u8>)>) {
        (self.entity, components_view(self.components@))
    }
}

/// The mathematical shape of a component list.
pub open spec fn components_view(v: Seq<ComponentChange>) -> Seq<(FnsId, Seq<u8>)> {
    v.map_values(|c: ComponentChange| c@)
}

/// The mathematical shape of a removals list.
pub open spec fn removals_view(v: Seq<EntityRemovals>) -> Seq<(Entity, Seq<FnsId>)> {
    v.map_values(|r: EntityRemovals| r@)
}

/// The mathematical shape of a changes list.
pub open spec fn changes_view(v: Seq<EntityChanges>) -> Seq<(Entity, Seq<(FnsId, Seq<u8>)>)> {
    v.map_values(|c: EntityChanges| c@)
}

/// The mathematical shape of a mutation-entry list.
pub open spec fn mutations_view(v: Seq<MutationEntry>) -> Seq<(Entity, Seq<u8>)> {
    v.map_values(|m: MutationEntry| m@)
}

/// A decoded update message: everything but pure component mutations that
/// one server tick produced for this client, delivered reliably and in order.
pub struct UpdateMessage {
    pub tick: RepliconTick,
    pub mappings: Vec<(Entity, Entity)>,
    pub despawns: Vec<Entity>,
    pub removals: Vec<EntityRemovals>,
    pub changes: Vec<EntityChanges>,
}

/// The mathematical shape of an update message.
#[verifier::ext_equal]
pub ghost struct UpdateMessageView {
    pub tick: RepliconTick,
    pub mappings: Seq<(Entity, Entity)>,
    pub despawns: Seq<Entity>,
    pub removals: Seq<(Entity, Seq<FnsId>)>,
    pub changes: Seq<(Entity, Seq<(FnsId, Seq<u8>)>)>,
}

impl View for UpdateMessage {
    type V = UpdateMessageView;

    open spec fn view(&self) -> UpdateMessageView {
        UpdateMessageView {
            tick: self.tick,
            mappings: self.mappings@,
            despawns: self.despawns@,
            removals: removals_view(self.removals@),
            changes: changes_view(self.changes@),
        }
    }
}

/// The header of a mutate message. `messages_count` is how many mutate
/// messages the server produced for `message_tick` in all; `mutate_index`
/// names this fragment for acknowledgment.
#[derive(Clone, Copy, Debug, PartialEq, Eq, Structural)]
pub struct MutateHeader {
    pub update_tick: RepliconTick,
    pub message_tick: RepliconTick,
    pub messages_count: u64,
    pub mutate_index: u16,
}

/// One entity's slice of a mutate message: the entity and its still-encoded
/// component mutations, kept raw so an unknown entity's data can be skipped
/// without interpreting it.
pub struct MutationEntry {
    pub entity: Entity,
    pub data: Vec<u8>,
}

impl View for MutationEntry {
    type V = (Entity, Seq<u8>);

    open spec fn view(&self) -> (Entity, Seq<u8>) {
        (self.entity, self.data@)
    }
}

// ---------------------------------------------------------------------------
// Element grammars
// ---------------------------------------------------------------------------

/// A varint at `pos`, when it fits 64 bits.
pub open spec fn varint_at(s: Seq<u8>, pos: int) -> Option<(u64, int)> {
    match varint_parse(s.skip(pos), 10) {
        Some((v, n)) => {
            if v < 0x1_0000_0000_0000_0000 {
                Some((v as u64, pos + n))
            } else {
                None
            }
        },
        None => None,
    }
}

/// An entity at `pos`.
pub open spec fn entity_at(s: Seq<u8>, pos: int) -> Option<(Entity, int)> {
    match entity_parse(s.skip(pos)) {
        Some((e, n)) => Some((e, pos + n)),
        None => None,
    }
}

/// A compact integer at `pos` that names a registered function set.
pub open spec fn fns_at(s: Seq<u8>, pos: int, reg: Seq<FnsEntry>) -> Option<(FnsId, int)> {
    match compact_parse(s.skip(pos)) {
        Some((v, n)) => {
            if v < reg.len() {
                Some((FnsId(v), pos + n))
            } else {
                None
            }
        },
        None => None,
    }
}

/// A mapping element: server entity, then the client entity it binds to.
pub open spec fn mapping_at(s: Seq<u8>, pos: int) -> Option<((Entity, Entity), int)> {
    match entity_at(s, pos) {
        None => None,
        Some((se, p1)) => match entity_at(s, p1) {
            None => None,
            Some((ce, p2)) => Some(((se, ce), p2)),
        },
    }
}

/// A component element: a function-set id, then one serialized value whose
/// length the registry fixes.
pub open spec fn component_at(s: Seq<u8>, pos: int, reg: Seq<FnsEntry>) -> Option<
    ((FnsId, Seq<u8>), int),
> {
    match fns_at(s, pos, reg) {
        None => None,
        Some((f, p1)) => {
            let len = reg[f.0 as int].value_len as int;
            if p1 + len <= s.len() {
                Some(((f, s.subrange(p1, p1 + len)), p1 + len))
            } else {
                None
            }
        },
    }
}

// ---------------------------------------------------------------------------
// List grammars
// ---------------------------------------------------------------------------

pub open spec fn mappings_n(s: Seq<u8>, pos: int, n: nat) -> Option<(Seq<(Entity, Entity)>, int)>
    decreases n,
{
    if n == 0 {
        Some((Seq::empty(), pos))
    } else {
        match mapping_at(s, pos) {
            None => None,
            Some((e, p)) => match mappings_n(s, p, (n - 1) as nat) {
                None => None,
                Some((tail, end)) => Some((seq![e] + tail, end)),
            },
        }
    }
}

pub open spec fn mappings_dyn(s: Seq<u8>, pos: int) -> Option<(Seq<(Entity, Entity)>, int)>
    decreases s.len() - pos,
{
    if pos < 0 || pos >= s.len() {
        Some((Seq::empty(), pos))
    } else {
        match mapping_at(s, pos) {
            None => None,
            Some((e, p)) => {
                if pos < p <= s.len() {
                    match mappings_dyn(s, p) {
                        None => None,
                        Some((tail, end)) => Some((seq![e] + tail, end)),
                    }
                } else {
                    None
                }
            },
        }
    }
}

pub open spec fn despawns_n(s: Seq<u8>, pos: int, n: nat) -> Option<(Seq<Entity>, int)>
    decreases n,
{
    if n == 0 {
        Some((Seq::empty(), pos))
    } else {
        match entity_at(s, pos) {
            None => None,
            Some((e, p)) => match despawns_n(s, p, (n - 1) as nat) {
                None => None,
                Some((tail, end)) => Some((seq![e] + tail, end)),
            },
        }
    }
}

pub open spec fn despawns_dyn(s: Seq<u8>, pos: int) -> Option<(Seq<Entity>, int)>
    decreases s.len() - pos,
{
    if pos < 0 || pos >= s.len() {
        Some((Seq::empty(), pos))
    } else {
        match entity_at(s, pos) {
            None => None,
            Some((e, p)) => {
                if pos < p <= s.len() {
                    match despawns_dyn(s, p) {
                        None => None,
                        Some((tail, end)) => Some((seq![e] + tail, end)),
                    }
                } else {
                    None
                }
            },
        }
    }
}

pub open spec fn fns_list_n(s: Seq<u8>, pos: int, n: nat, reg: Seq<FnsEntry>) -> Option<
    (Seq<FnsId>, int),
>
    decreases n,
{
    if n == 0 {
        Some((Seq::empty(), pos))
    } else {
        match fns_at(s, pos, reg) {
            None => None,
            Some((f, p)) => match fns_list_n(s, p, (n - 1) as nat, reg) {
                None => None,
                Some((tail, end)) => Some((seq![f] + tail, end)),
            },
        }
    }
}

/// A removal element: an entity, then a counted list of function-set ids.
pub open spec fn removal_at(s: Seq<u8>, pos: int, reg: Seq<FnsEntry>) -> Option<
    ((Entity, Seq<FnsId>), int),
> {
    match entity_at(s, pos) {
        None => None,
        Some((e, p1)) => match varint_at(s, p1) {
            None => None,
            Some((cnt, p2)) => {
                if cnt as int > s.len() - p2 {
                    None
                } else {
                    match fns_list_n(s, p2, cnt as nat, reg) {
                        None => None,
                        Some((ids, end)) => Some(((e, ids), end)),
                    }
                }
            },
        },
    }
}

pub open spec fn removals_n(s: Seq<u8>, pos: int, n: nat, reg: Seq<FnsEntry>) -> Option<
    (Seq<(Entity, Seq<FnsId>)>, int),
>
    decreases n,
{
    if n == 0 {
        Some((Seq::empty(), pos))
    } else {
        match removal_at(s, pos, reg) {
            None => None,
            Some((e, p)) => match removals_n(s, p, (n - 1) as nat, reg) {
                None => None,
                Some((tail, end)) => Some((seq![e] + tail, end)),
            },
        }
    }
}

pub open spec fn removals_dyn(s: Seq<u8>, pos: int, reg: Seq<FnsEntry>) -> Option<
    (Seq<(Entity, Seq<FnsId>)>, int),
>
    decreases s.len() - pos,
{
    if pos < 0 || pos >= s.len() {
        Some((Seq::empty(), pos))
    } else {
        match removal_at(s, pos, reg) {
            None => None,
            Some((e, p)) => {
                if pos < p <= s.len() {
                    match removals_dyn(s, p, reg) {
                        None => None,
                        Some((tail, end)) => Some((seq![e] + tail, end)),
                    }
                } else {
                    None
                }
            },
        }
    }
}

pub open spec fn components_n(s: Seq<u8>, pos: int, n: nat, reg: Seq<FnsEntry>) -> Option<
    (Seq<(FnsId, Seq<u8>)>, int),
>
    decreases n,
{
    if n == 0 {
        Some((Seq::empty(), pos))
    } else {
        match component_at(s, pos, reg) {
            None => None,
            Some((c, p)) => match components_n(s, p, (n - 1) as nat, reg) {
                None => None,
                Some((tail, end)) => Some((seq![c] + tail, end)),
            },
        }
    }
}

/// Component elements until the end of the input: the framing of the data
/// inside one mutation entry.
pub open spec fn components_dyn(s: Seq<u8>, pos: int, reg: Seq<FnsEntry>) -> Option<
    (Seq<(FnsId, Seq<u8>)>, int),
>
    decreases s.len() - pos,
{
    if pos < 0 || pos >= s.len() {
        Some((Seq::empty(), pos))
    } else {
        match component_at(s, pos, reg) {
            None => None,
            Some((c, p)) => {
                if pos < p <= s.len() {
                    match components_dyn(s, p, reg) {
                        None => None,
                        Some((tail, end)) => Some((seq![c] + tail, end)),
                    }
                } else {
                    None
                }
            },
        }
    }
}

/// A change element: an entity, then a counted list of components.
pub open spec fn change_at(s: Seq<u8>, pos: int, reg: Seq<FnsEntry>) -> Option<
    ((Entity, Seq<(FnsId, Seq<u8>)>), int),
> {
    match entity_at(s, pos) {
        None => None,
        Some((e, p1)) => match varint_at(s, p1) {
            None => None,
            Some((cnt, p2)) => {
                if cnt as int > s.len() - p2 {
                    None
                } else {
                    match components_n(s, p2, cnt as nat, reg) {
                        None => None,
                        Some((cs, end)) => Some(((e, cs), end)),
                    }
                }
            },
        },
    }
}

pub open spec fn changes_dyn(s: Seq<u8>, pos: int, reg: Seq<FnsEntry>) -> Option<
    (Seq<(Entity, Seq<(FnsId, Seq<u8>)>)>, int),
>
    decreases s.len() - pos,
{
    if pos < 0 || pos >= s.len() {
        Some((Seq::empty(), pos))
    } else {
        match change_at(s, pos, reg) {
            None => None,
            Some((e, p)) => {
                if pos < p <= s.len() {
                    match changes_dyn(s, p, reg) {
                        None => None,
                        Some((tail, end)) => Some((seq![e] + tail, end)),
                    }
                } else {
                    None
                }
            },
        }
    }
}

/// A mutation entry: an entity, a byte count, and that many raw bytes of
/// still-encoded components.
pub open spec fn mutation_entry_at(s: Seq<u8>, pos: int) -> Option<((Entity, Seq<u8>), int)> {
    match entity_at(s, pos) {
        None => None,
        Some((e, p1)) => match varint_at(s, p1) {
            None => None,
            Some((size, p2)) => {
                if size as int > s.len() - p2 {
                    None
                } else {
                    Some(((e, s.subrange(p2, p2 + size as int)), p2 + size as int))
                }
            },
        },
    }
}

pub open spec fn mutations_dyn(s: Seq<u8>, pos: int) -> Option<(Seq<(Entity, Seq<u8>)>, int)>
    decreases s.len() - pos,
{
    if pos < 0 || pos >= s.len() {
        Some((Seq::empty(), pos))
    } else {
        match mutation_entry_at(s, pos) {
            None => None,
            Some((e, p)) => {
                if pos < p <= s.len() {
                    match mutations_dyn(s, p) {
                        None => None,
                        Some((tail, end)) => Some((seq![e] + tail, end)),
                    }
                } else {
                    None
                }
            },
        }
    }
}

// ---------------------------------------------------------------------------
// Whole-message grammars
// ---------------------------------------------------------------------------

/// An update message: a flags byte, the tick, then one array for each set
/// flag in fixed order, every array length-prefixed except the last set
/// flag's, which runs to the end of the message.
pub open spec fn update_parse(s: Seq<u8>, reg: Seq<FnsEntry>) -> Option<UpdateMessageView> {
    if s.len() < 5 {
        None
    } else {
        let flags = s[0];
        let tick = RepliconTick(u32_le_parse(s, 1));
        let m0 = if has_mappings(flags) {
            if mappings_is_last(flags) {
                mappings_dyn(s, 5)
            } else {
                sized_mappings(s, 5)
            }
        } else {
            Some((Seq::<(Entity, Entity)>::empty(), 5int))
        };
        match m0 {
            None => None,
            Some((maps, p1)) => {
                let d0 = if has_despawns(flags) {
                    if despawns_is_last(flags) {
                        despawns_dyn(s, p1)
                    } else {
                        sized_despawns(s, p1)
                    }
                } else {
                    Some((Seq::<Entity>::empty(), p1))
                };
                match d0 {
                    None => None,
                    Some((des, p2)) => {
                        let r0 = if has_removals(flags) {
                            if removals_is_last(flags) {
                                removals_dyn(s, p2, reg)
                            } else {
                                sized_removals(s, p2, reg)
                            }
                        } else {
                            Some((Seq::<(Entity, Seq<FnsId>)>::empty(), p2))
                        };
                        match r0 {
                            None => None,
                            Some((rem, p3)) => {
                                let c0 = if has_changes(flags) {
                                    changes_dyn(s, p3, reg)
                                } else {
                                    Some((Seq::<(Entity, Seq<(FnsId, Seq<u8>)>)>::empty(), p3))
                                };
                                match c0 {
                                    None => None,
                                    Some((chs, _p4)) => Some(
                                        UpdateMessageView {
                                            tick,
                                            mappings: maps,
                                            despawns: des,
                                            removals: rem,
                                            changes: chs,
                                        },
                                    ),
                                }
                            },
                        }
                    },
                }
            },
        }
    }
}

pub open spec fn sized_mappings(s: Seq<u8>, pos: int) -> Option<(Seq<(Entity, Entity)>, int)> {
    match varint_at(s, pos) {
        None => None,
        Some((cnt, p)) => {
            if cnt as int > s.len() - p {
                None
            } else {
                mappings_n(s, p, cnt as nat)
            }
        },
    }
}

pub open spec fn sized_despawns(s: Seq<u8>, pos: int) -> Option<(Seq<Entity>, int)> {
    match varint_at(s, pos) {
        None => None,
        Some((cnt, p)) => {
            if cnt as int > s.len() - p {
                None
            } else {
                despawns_n(s, p, cnt as nat)
            }
        },
    }
}

pub open spec fn sized_removals(s: Seq<u8>, pos: int, reg: Seq<FnsEntry>) -> Option<
    (Seq<(Entity, Seq<FnsId>)>, int),
> {
    match varint_at(s, pos) {
        None => None,
        Some((cnt, p)) => {
            if cnt as int > s.len() - p {
                None
            } else {
                removals_n(s, p, cnt as nat, reg)
            }
        },
    }
}

// ---------------------------------------------------------------------------
// Element readers
// ---------------------------------------------------------------------------

/// Reads an entity, bridging to the position-based grammar.
fn read_entity_at(data: &[u8], pos: usize) -> (r: Result<(Entity, usize), DecodeError>)
    requires
        pos <= data@.len(),
    ensures
        match entity_at(data@, pos as int) {
            Some((e, end)) => r matches Ok(p) && p.0 == e && p.1 == end,
            None => r.is_err(),
        },
        r matches Ok(p) ==> pos < p.1 <= data@.len(),
{
    let dlen = data.len();
    proof {
        lemma_entity_parse_len(data@.skip(pos as int));
        if let Some((e0, n0)) = entity_parse(data@.skip(pos as int)) {
            assert(pos + n0 <= dlen);
        }
    }
    deserialize_entity(data, pos)
}

/// Reads a varint, bridging to the position-based grammar.
fn read_varint_at(data: &[u8], pos: usize) -> (r: Result<(u64, usize), DecodeError>)
    requires
        pos <= data@.len(),
    ensures
        match varint_at(data@, pos as int) {
            Some((v, end)) => r matches Ok(p) && p.0 == v && p.1 == end,
            None => r.is_err(),
        },
        r matches Ok(p) ==> pos < p.1 <= data@.len(),
{
    let dlen = data.len();
    proof {
        lemma_varint_parse_len(data@.skip(pos as int), 10);
        if let Some((v0, n0)) = varint_parse(data@.skip(pos as int), 10) {
            assert(pos + n0 <= dlen);
        }
    }
    read_varint(data, pos)
}

/// Reads a function-set id and rejects ids the registry does not know.
fn read_fns_at(data: &[u8], pos: usize, reg: &ReplicationRegistry) -> (r: Result<
    (FnsId, usize),
    DecodeError,
>)
    requires
        pos <= data@.len(),
    ensures
        match fns_at(data@, pos as int, reg.entries@) {
            Some((f, end)) => r matches Ok(p) && p.0 == f && p.1 == end,
            None => r.is_err(),
        },
        r matches Ok(p) ==> pos < p.1 <= data@.len(),
{
    let dlen = data.len();
    let (v, end) = match read_compact(data, pos) {
        Ok(p) => p,
        Err(e) => {
            return Err(e);
        },
    };
    proof {
        if let Some((v0, n0)) = compact_parse(data@.skip(pos as int)) {
            assert(pos + n0 <= dlen);
        }
    }
    if v < reg.len() as u64 {
        Ok((FnsId(v), end))
    } else {
        Err(DecodeError::UnknownFnsId)
    }
}

/// Reads one mapping element.
fn read_mapping_at(data: &[u8], pos: usize) -> (r: Result<((Entity, Entity), usize), DecodeError>)
    requires
        pos <= data@.len(),
    ensures
        match mapping_at(data@, pos as int) {
            Some((m, end)) => r matches Ok(p) && p.0 == m && p.1 == end,
            None => r.is_err(),
        },
        r matches Ok(p) ==> pos < p.1 <= data@.len(),
{
    let (se, p1) = match read_entity_at(data, pos) {
        Ok(p) => p,
        Err(e) => {
            return Err(e);
        },
    };
    let (ce, p2) = match read_entity_at(data, p1) {
        Ok(p) => p,
        Err(e) => {
            return Err(e);
        },
    };
    Ok(((se, ce), p2))
}

/// Reads one component element, taking the value's length from the registry.
fn read_component_at(data: &[u8], pos: usize, reg: &ReplicationRegistry) -> (r: Result<
    (ComponentChange, usize),
    DecodeError,
>)
    requires
        pos <= data@.len(),
    ensures
        match component_at(data@, pos as int, reg.entries@) {
            Some((c, end)) => r matches Ok(p) && p.0@ == c && p.1 == end,
            None => r.is_err(),
        },
        r matches Ok(p) ==> pos < p.1 <= data@.len(),
{
    let (f, p1) = match read_fns_at(data, pos, reg) {
        Ok(p) => p,
        Err(e) => {
            return Err(e);
        },
    };
    let len = match reg.get(f) {
        Some(entry) => entry.value_len,
        None => {
            return Err(DecodeError::UnknownFnsId);
        },
    };
    if len > data.len() - p1 {
        return Err(DecodeError::UnexpectedEnd);
    }
    let data_slice = vstd::slice::slice_subrange(data, p1, p1 + len);
    let value = vstd::slice::slice_to_vec(data_slice);
    Ok((ComponentChange { fns_id: f, data: value }, p1 + len))
}

/// Reads one mutation entry, keeping its component data raw.
fn read_mutation_entry_at(data: &[u8], pos: usize) -> (r: Result<
    (MutationEntry, usize),
    DecodeError,
>)
    requires
        pos <= data@.len(),
    ensures
        match mutation_entry_at(data@, pos as int) {
            Some((m, end)) => r matches Ok(p) && p.0@ == m && p.1 == end,
            None => r.is_err(),
        },
        r matches Ok(p) ==> pos < p.1 <= data@.len(),
{
    let (e, p1) = match read_entity_at(data, pos) {
        Ok(p) => p,
        Err(e) => {
            return Err(e);
        },
    };
    let (size, p2) = match read_varint_at(data, p1) {
        Ok(p) => p,
        Err(e) => {
            return Err(e);
        },
    };
    if size > (data.len() - p2) as u64 {
        return Err(DecodeError::UnexpectedEnd);
    }
    let size = size as usize;
    let data_slice = vstd::slice::slice_subrange(data, p2, p2 + size);
    let raw = vstd::slice::slice_to_vec(data_slice);
    Ok((MutationEntry { entity: e, data: raw }, p2 + size))
}

// ---------------------------------------------------------------------------
// List readers
// ---------------------------------------------------------------------------

/// Reads exactly `n` mapping elements.
fn parse_mappings_n(data: &[u8], pos: usize, n: usize) -> (r: Result<
    (Vec<(Entity, Entity)>, usize),
    DecodeError,
>)
    requires
        pos <= data@.len(),
    ensures
        match mappings_n(data@, pos as int, n as nat) {
            Some((elems, end)) => r matches Ok(p) && p.0@ == elems && p.1 == end,
            None => r.is_err(),
        },
        r matches Ok(p) ==> pos <= p.1 <= data@.len(),
{
    let mut out: Vec<(Entity, Entity)> = Vec::new();
    let mut cur = pos;
    let mut i: usize = 0;
    while i < n
        invariant
            pos <= cur <= data@.len(),
            i <= n,
            mappings_n(data@, pos as int, n as nat) == (match mappings_n(
                data@,
                cur as int,
                (n - i) as nat,
            ) {
                Some((tail, end)) => Some((out@ + tail, end)),
                None => None::<(Seq<(Entity, Entity)>, int)>,
            }),
        decreases n - i,
    {
        let (m, p) = match read_mapping_at(data, cur) {
            Ok(v) => v,
            Err(e) => {
                return Err(e);
            },
        };
        proof {
            if let Some((tail2, _end2)) = mappings_n(data@, p as int, (n - i - 1) as nat) {
                assert(out@ + (seq![m] + tail2) =~= out@.push(m) + tail2);
            }
        }
        out.push(m);
        cur = p;
        i = i + 1;
    }
    proof {
        assert(out@ + Seq::<(Entity, Entity)>::empty() =~= out@);
    }
    Ok((out, cur))
}

/// Reads mapping elements until the end of the input.
fn parse_mappings_dyn(data: &[u8], pos: usize) -> (r: Result<
    (Vec<(Entity, Entity)>, usize),
    DecodeError,
>)
    requires
        pos <= data@.len(),
    ensures
        match mappings_dyn(data@, pos as int) {
            Some((elems, end)) => r matches Ok(p) && p.0@ == elems && p.1 == end,
            None => r.is_err(),
        },
        r matches Ok(p) ==> pos <= p.1 <= data@.len(),
{
    let mut out: Vec<(Entity, Entity)> = Vec::new();
    let mut cur = pos;
    while cur < data.len()
        invariant
            pos <= cur <= data@.len(),
            mappings_dyn(data@, pos as int) == (match mappings_dyn(data@, cur as int) {
                Some((tail, end)) => Some((out@ + tail, end)),
                None => None::<(Seq<(Entity, Entity)>, int)>,
            }),
        decreases data@.len() - cur,
    {
        let (m, p) = match read_mapping_at(data, cur) {
            Ok(v) => v,
            Err(e) => {
                return Err(e);
            },
        };
        proof {
            if let Some((tail2, _end2)) = mappings_dyn(data@, p as int) {
                assert(out@ + (seq![m] + tail2) =~= out@.push(m) + tail2);
            }
        }
        out.push(m);
        cur = p;
    }
    proof {
        assert(out@ + Seq::<(Entity, Entity)>::empty() =~= out@);
    }
    Ok((out, cur))
}

/// A mutate message header: the update tick the recipient must have seen,
/// this data's own tick, the fragment count when acknowledgment tracking is
/// on, and the fragment's index, which must fit sixteen bits.
pub open spec fn mutate_header_parse(s: Seq<u8>, track: bool) -> Option<(MutateHeader, int)> {
    if s.len() < 8 {
        None
    } else {
        let update_tick = RepliconTick(u32_le_parse(s, 0));
        let message_tick = RepliconTick(u32_le_parse(s, 4));
        let c0 = if track {
            varint_at(s, 8)
        } else {
            Some((1u64, 8int))
        };
        match c0 {
            None => None,
            Some((count, p1)) => match varint_at(s, p1) {
                None => None,
                Some((idx, p2)) => {
                    if idx <= 0xFFFF {
                        Some(
                            (
                                MutateHeader {
                                    update_tick,
                                    message_tick,
                                    messages_count: count,
                                    mutate_index: idx as u16,
                                },
                                p2,
                            ),
                        )
                    } else {
                        None
                    }
                },
            },
        }
    }
}

/// Reads exactly `n` elements of this list.
fn parse_despawns_n(data: &[u8], pos: usize, n: usize) -> (r: Result<(Vec<Entity>, usize), DecodeError>)
    requires
        pos <= data@.len(),
    ensures
        match despawns_n(data@, pos as int, n as nat) {
            Some((elems, end)) => r matches Ok(p) && p.0@ == elems && p.1 == end,
            None => r.is_err(),
        },
        r matches Ok(p) ==> pos <= p.1 <= data@.len(),
{
    let mut out: Vec<Entity> = Vec::new();
    let mut cur = pos;
    let mut i: usize = 0;
    while i < n
        invariant
            pos <= cur <= data@.len(),
            i <= n,
            despawns_n(data@, pos as int, n as nat) == (match despawns_n(
                data@,
                cur as int,
                (n - i) as nat,
            ) {
                Some((tail, end)) => Some((out@ + tail, end)),
                None => None::<(Seq<Entity>, int)>,
            }),
        decreases n - i,
    {
        let (m, p) = match read_entity_at(data, cur) {
            Ok(v) => v,
            Err(e) => {
                return Err(e);
            },
        };
        proof {
            if let Some((tail2, _end2)) = despawns_n(data@, p as int, (n - i - 1) as nat) {
                assert(out@ + (seq![m] + tail2) =~= out@.push(m) + tail2);
            }
        }
        out.push(m);
        cur = p;
        i = i + 1;
    }
    proof {
        assert(out@ + Seq::<Entity>::empty() =~= out@);
    }
    Ok((out, cur))
}

/// Reads despawn entities until the end of the input.
fn parse_despawns_dyn(data: &[u8], pos: usize) -> (r: Result<(Vec<Entity>, usize), DecodeError>)
    requires
        pos <= data@.len(),
    ensures
        match despawns_dyn(data@, pos as int) {
            Some((elems, end)) => r matches Ok(p) && p.0@ == elems && p.1 == end,
            None => r.is_err(),
        },
        r matches Ok(p) ==> pos <= p.1 <= data@.len(),
{
    let mut out: Vec<Entity> = Vec::new();
    let mut cur = pos;
    while cur < data.len()
        invariant
            pos <= cur <= data@.len(),
            despawns_dyn(data@, pos as int) == (match despawns_dyn(data@, cur as int) {
                Some((tail, end)) => Some((out@ + tail, end)),
                None => None::<(Seq<Entity>, int)>,
            }),
        decreases data@.len() - cur,
    {
        let (m, p) = match read_entity_at(data, cur) {
            Ok(v) => v,
            Err(e) => {
                return Err(e);
            },
        };
        proof {
            if let Some((tail2, _end2)) = despawns_dyn(data@, p as int) {
                assert(out@ + (seq![m] + tail2) =~= out@.push(m) + tail2);
            }
        }
        out.push(m);
        cur = p;
    }
    proof {
        assert(out@ + Seq::<Entity>::empty() =~= out@);
    }
    Ok((out, cur))
}

/// Reads exactly `n` elements of this list.
fn parse_fns_n(data: &[u8], pos: usize, n: usize, reg: &ReplicationRegistry) -> (r: Result<(Vec<FnsId>, usize), DecodeError>)
    requires
        pos <= data@.len(),
    ensures
        match fns_list_n(data@, pos as int, n as nat, reg.entries@) {
            Some((elems, end)) => r matches Ok(p) && p.0@ == elems && p.1 == end,
            None => r.is_err(),
        },
        r matches Ok(p) ==> pos <= p.1 <= data@.len(),
{
    let mut out: Vec<FnsId> = Vec::new();
    let mut cur = pos;
    let mut i: usize = 0;
    while i < n
        invariant
            pos <= cur <= data@.len(),
            i <= n,
            fns_list_n(data@, pos as int, n as nat, reg.entries@) == (match fns_list_n(
                data@,
                cur as int,
                (n - i) as nat, reg.entries@,
            ) {
                Some((tail, end)) => Some((out@ + tail, end)),
                None => None::<(Seq<FnsId>, int)>,
            }),
        decreases n - i,
    {
        let (m, p) = match read_fns_at(data, cur, reg) {
            Ok(v) => v,
            Err(e) => {
                return Err(e);
            },
        };
        proof {
            if let Some((tail2, _end2)) = fns_list_n(data@, p as int, (n - i - 1) as nat, reg.entries@) {
                assert(out@ + (seq![m] + tail2) =~= out@.push(m) + tail2);
            }
        }
        out.push(m);
        cur = p;
        i = i + 1;
    }
    proof {
        assert(out@ + Seq::<FnsId>::empty() =~= out@);
    }
    Ok((out, cur))
}

/// Reads one removal element: an entity and its counted function-set ids.
fn read_removal_at(data: &[u8], pos: usize, reg: &ReplicationRegistry) -> (r: Result<
    (EntityRemovals, usize),
    DecodeError,
>)
    requires
        pos <= data@.len(),
    ensures
        match removal_at(data@, pos as int, reg.entries@) {
            Some((m, end)) => r matches Ok(p) && p.0@ == m && p.1 == end,
            None => r.is_err(),
        },
        r matches Ok(p) ==> pos < p.1 <= data@.len(),
{
    let (e, p1) = match read_entity_at(data, pos) {
        Ok(v) => v,
        Err(er) => {
            return Err(er);
        },
    };
    let (cnt, p2) = match read_varint_at(data, p1) {
        Ok(v) => v,
        Err(er) => {
            return Err(er);
        },
    };
    if cnt > (data.len() - p2) as u64 {
        return Err(DecodeError::UnexpectedEnd);
    }
    let (ids, end) = match parse_fns_n(data, p2, cnt as usize, reg) {
        Ok(v) => v,
        Err(er) => {
            return Err(er);
        },
    };
    Ok((EntityRemovals { entity: e, fns_ids: ids }, end))
}

/// Reads this list to an exact count.
fn parse_removals_n(data: &[u8], pos: usize, n: usize, reg: &ReplicationRegistry) -> (r: Result<(Vec<EntityRemovals>, usize), DecodeError>)
    requires
        pos <= data@.len(),
    ensures
        match removals_n(data@, pos as int, n as nat, reg.entries@) {
            Some((elems, end)) => r matches Ok(p) && removals_view(p.0@) == elems && p.1 == end,
            None => r.is_err(),
        },
        r matches Ok(p) ==> pos <= p.1 <= data@.len(),
{
    let mut out: Vec<EntityRemovals> = Vec::new();
    let mut cur = pos;
    let mut i: usize = 0;
    while i < n
        invariant
            pos <= cur <= data@.len(),
            i <= n,
            removals_n(data@, pos as int, n as nat, reg.entries@) == (match removals_n(data@, cur as int, (n - i) as nat, reg.entries@) {
                Some((tail, end)) => Some((removals_view(out@) + tail, end)),
                None => None::<(Seq<(Entity, Seq<FnsId>)>, int)>,
            }),
        decreases n - i,
    {
        let (m, p) = match read_removal_at(data, cur, reg) {
            Ok(v) => v,
            Err(e) => {
                return Err(e);
            },
        };
        proof {
            if let Some((tail2, _end2)) = removals_n(data@, p as int, (n - i - 1) as nat, reg.entries@) {
                assert(removals_view(out@) + (seq![m@] + tail2) =~= removals_view(out@.push(m)) + tail2);
            }
        }
        out.push(m);
        cur = p;
        i = i + 1;
    }
    proof {
        assert(removals_view(out@) + Seq::<(Entity, Seq<FnsId>)>::empty() =~= removals_view(out@));
    }
    Ok((out, cur))
}

/// Reads this list until the end of the input.
fn parse_removals_dyn(data: &[u8], pos: usize, reg: &ReplicationRegistry) -> (r: Result<(Vec<EntityRemovals>, usize), DecodeError>)
    requires
        pos <= data@.len(),
    ensures
        match removals_dyn(data@, pos as int, reg.entries@) {
            Some((elems, end)) => r matches Ok(p) && removals_view(p.0@) == elems && p.1 == end,
            None => r.is_err(),
        },
        r matches Ok(p) ==> pos <= p.1 <= data@.len(),
{
    let mut out: Vec<EntityRemovals> = Vec::new();
    let mut cur = pos;
    while cur < data.len()
        invariant
            pos <= cur <= data@.len(),
            removals_dyn(data@, pos as int, reg.entries@) == (match removals_dyn(data@, cur as int, reg.entries@) {
                Some((tail, end)) => Some((removals_view(out@) + tail, end)),
                None => None::<(Seq<(Entity, Seq<FnsId>)>, int)>,
            }),
        decreases data@.len() - cur,
    {
        let (m, p) = match read_removal_at(data, cur, reg) {
            Ok(v) => v,
            Err(e) => {
                return Err(e);
            },
        };
        proof {
            if let Some((tail2, _end2)) = removals_dyn(data@, p as int, reg.entries@) {
                assert(removals_view(out@) + (seq![m@] + tail2) =~= removals_view(out@.push(m)) + tail2);
            }
        }
        out.push(m);
        cur = p;
    }
    proof {
        assert(removals_view(out@) + Seq::<(Entity, Seq<FnsId>)>::empty() =~= removals_view(out@));
    }
    Ok((out, cur))
}

/// Reads this list to an exact count.
fn parse_components_n(data: &[u8], pos: usize, n: usize, reg: &ReplicationRegistry) -> (r: Result<(Vec<ComponentChange>, usize), DecodeError>)
    requires
        pos <= data@.len(),
    ensures
        match components_n(data@, pos as int, n as nat, reg.entries@) {
            Some((elems, end)) => r matches Ok(p) && components_view(p.0@) == elems && p.1 == end,
            None => r.is_err(),
        },
        r matches Ok(p) ==> pos <= p.1 <= data@.len(),
{
    let mut out: Vec<ComponentChange> = Vec::new();
    let mut cur = pos;
    let mut i: usize = 0;
    while i < n
        invariant
            pos <= cur <= data@.len(),
            i <= n,
            components_n(data@, pos as int, n as nat, reg.entries@) == (match components_n(data@, cur as int, (n - i) as nat, reg.entries@) {
                Some((tail, end)) => Some((components_view(out@) + tail, end)),
                None => None::<(Seq<(FnsId, Seq<u8>)>, int)>,
            }),
        decreases n - i,
    {
        let (m, p) = match read_component_at(data, cur, reg) {
            Ok(v) => v,
            Err(e) => {
                return Err(e);
            },
        };
        proof {
            if let Some((tail2, _end2)) = components_n(data@, p as int, (n - i - 1) as nat, reg.entries@) {
                assert(components_view(out@) + (seq![m@] + tail2) =~= components_view(out@.push(m)) + tail2);
            }
        }
        out.push(m);
        cur = p;
        i = i + 1;
    }
    proof {
        assert(components_view(out@) + Seq::<(FnsId, Seq<u8>)>::empty() =~= components_view(out@));
    }
    Ok((out, cur))
}

/// Reads this list until the end of the input.
fn parse_components_dyn(data: &[u8], pos: usize, reg: &ReplicationRegistry) -> (r: Result<(Vec<ComponentChange>, usize), DecodeError>)
    requires
        pos <= data@.len(),
    ensures
        match components_dyn(data@, pos as int, reg.entries@) {
            Some((elems, end)) => r matches Ok(p) && components_view(p.0@) == elems && p.1 == end,
            None => r.is_err(),
        },
        r matches Ok(p) ==> pos <= p.1 <= data@.len(),
{
    let mut out: Vec<ComponentChange> = Vec::new();
    let mut cur = pos;
    while cur < data.len()
        invariant
            pos <= cur <= data@.len(),
            components_dyn(data@, pos as int, reg.entries@) == (match components_dyn(data@, cur as int, reg.entries@) {
                Some((tail, end)) => Some((components_view(out@) + tail, end)),
                None => None::<(Seq<(FnsId, Seq<u8>)>, int)>,
            }),
        decreases data@.len() - cur,
    {
        let (m, p) = match read_component_at(data, cur, reg) {
            Ok(v) => v,
            Err(e) => {
                return Err(e);
            },
        };
        proof {
            if let Some((tail2, _end2)) = components_dyn(data@, p as int, reg.entries@) {
                assert(components_view(out@) + (seq![m@] + tail2) =~= components_view(out@.push(m)) + tail2);
            }
        }
        out.push(m);
        cur = p;
    }
    proof {
        assert(components_view(out@) + Seq::<(FnsId, Seq<u8>)>::empty() =~= components_view(out@));
    }
    Ok((out, cur))
}

/// Reads one change element: an entity and its counted components.
fn read_change_at(data: &[u8], pos: usize, reg: &ReplicationRegistry) -> (r: Result<
    (EntityChanges, usize),
    DecodeError,
>)
    requires
        pos <= data@.len(),
    ensures
        match change_at(data@, pos as int, reg.entries@) {
            Some((m, end)) => r matches Ok(p) && p.0@ == m && p.1 == end,
            None => r.is_err(),
        },
        r matches Ok(p) ==> pos < p.1 <= data@.len(),
{
    let (e, p1) = match read_entity_at(data, pos) {
        Ok(v) => v,
        Err(er) => {
            return Err(er);
        },
    };
    let (cnt, p2) = match read_varint_at(data, p1) {
        Ok(v) => v,
        Err(er) => {
            return Err(er);
        },
    };
    if cnt > (data.len() - p2) as u64 {
        return Err(DecodeError::UnexpectedEnd);
    }
    let (cs, end) = match parse_components_n(data, p2, cnt as usize, reg) {
        Ok(v) => v,
        Err(er) => {
            return Err(er);
        },
    };
    Ok((EntityChanges { entity: e, components: cs }, end))
}

/// Reads this list until the end of the input.
fn parse_changes_dyn(data: &[u8], pos: usize, reg: &ReplicationRegistry) -> (r: Result<(Vec<EntityChanges>, usize), DecodeError>)
    requires
        pos <= data@.len(),
    ensures
        match changes_dyn(data@, pos as int, reg.entries@) {
            Some((elems, end)) => r matches Ok(p) && changes_view(p.0@) == elems && p.1 == end,
            None => r.is_err(),
        },
        r matches Ok(p) ==> pos <= p.1 <= data@.len(),
{
    let mut out: Vec<EntityChanges> = Vec::new();
    let mut cur = pos;
    while cur < data.len()
        invariant
            pos <= cur <= data@.len(),
            changes_dyn(data@, pos as int, reg.entries@) == (match changes_dyn(data@, cur as int, reg.entries@) {
                Some((tail, end)) => Some((changes_view(out@) + tail, end)),
                None => None::<(Seq<(Entity, Seq<(FnsId, Seq<u8>)>)>, int)>,
            }),
        decreases data@.len() - cur,
    {
        let (m, p) = match read_change_at(data, cur, reg) {
            Ok(v) => v,
            Err(e) => {
                return Err(e);
            },
        };
        proof {
            if let Some((tail2, _end2)) = changes_dyn(data@, p as int, reg.entries@) {
                assert(changes_view(out@) + (seq![m@] + tail2) =~= changes_view(out@.push(m)) + tail2);
            }
        }
        out.push(m);
        cur = p;
    }
    proof {
        assert(changes_view(out@) + Seq::<(Entity, Seq<(FnsId, Seq<u8>)>)>::empty() =~= changes_view(out@));
    }
    Ok((out, cur))
}

/// Reads this list until the end of the input.
fn parse_mutations_dyn(data: &[u8], pos: usize) -> (r: Result<(Vec<MutationEntry>, usize), DecodeError>)
    requires
        pos <= data@.len(),
    ensures
        match mutations_dyn(data@, pos as int) {
            Some((elems, end)) => r matches Ok(p) && mutations_view(p.0@) == elems && p.1 == end,
            None => r.is_err(),
        },
        r matches Ok(p) ==> pos <= p.1 <= data@.len(),
{
    let mut out: Vec<MutationEntry> = Vec::new();
    let mut cur = pos;
    while cur < data.len()
        invariant
            pos <= cur <= data@.len(),
            mutations_dyn(data@, pos as int) == (match mutations_dyn(data@, cur as int) {
                Some((tail, end)) => Some((mutations_view(out@) + tail, end)),
                None => None::<(Seq<(Entity, Seq<u8>)>, int)>,
            }),
        decreases data@.len() - cur,
    {
        let (m, p) = match read_mutation_entry_at(data, cur) {
            Ok(v) => v,
            Err(e) => {
                return Err(e);
            },
        };
        proof {
            if let Some((tail2, _end2)) = mutations_dyn(data@, p as int) {
                assert(mutations_view(out@) + (seq![m@] + tail2) =~= mutations_view(out@.push(m)) + tail2);
            }
        }
        out.push(m);
        cur = p;
    }
    proof {
        assert(mutations_view(out@) + Seq::<(Entity, Seq<u8>)>::empty() =~= mutations_view(out@));
    }
    Ok((out, cur))
}

/// Reads a length-prefixed mappings array.
fn parse_mappings_sized(data: &[u8], pos: usize) -> (r: Result<
    (Vec<(Entity, Entity)>, usize),
    DecodeError,
>)
    requires
        pos <= data@.len(),
    ensures
        match sized_mappings(data@, pos as int) {
            Some((elems, end)) => r matches Ok(p) && p.0@ == elems && p.1 == end,
            None => r.is_err(),
        },
        r matches Ok(p) ==> pos <= p.1 <= data@.len(),
{
    let (cnt, p) = match read_varint_at(data, pos) {
        Ok(v) => v,
        Err(er) => {
            return Err(er);
        },
    };
    if cnt > (data.len() - p) as u64 {
        return Err(DecodeError::UnexpectedEnd);
    }
    parse_mappings_n(data, p, cnt as usize)
}

/// Reads a length-prefixed despawns array.
fn parse_despawns_sized(data: &[u8], pos: usize) -> (r: Result<(Vec<Entity>, usize), DecodeError>)
    requires
        pos <= data@.len(),
    ensures
        match sized_despawns(data@, pos as int) {
            Some((elems, end)) => r matches Ok(p) && p.0@ == elems && p.1 == end,
            None => r.is_err(),
        },
        r matches Ok(p) ==> pos <= p.1 <= data@.len(),
{
    let (cnt, p) = match read_varint_at(data, pos) {
        Ok(v) => v,
        Err(er) => {
            return Err(er);
        },
    };
    if cnt > (data.len() - p) as u64 {
        return Err(DecodeError::UnexpectedEnd);
    }
    parse_despawns_n(data, p, cnt as usize)
}

/// Reads a length-prefixed removals array.
fn parse_removals_sized(data: &[u8], pos: usize, reg: &ReplicationRegistry) -> (r: Result<
    (Vec<EntityRemovals>, usize),
    DecodeError,
>)
    requires
        pos <= data@.len(),
    ensures
        match sized_removals(data@, pos as int, reg.entries@) {
            Some((elems, end)) => r matches Ok(p) && removals_view(p.0@) == elems && p.1 == end,
            None => r.is_err(),
        },
        r matches Ok(p) ==> pos <= p.1 <= data@.len(),
{
    let (cnt, p) = match read_varint_at(data, pos) {
        Ok(v) => v,
        Err(er) => {
            return Err(er);
        },
    };
    if cnt > (data.len() - p) as u64 {
        return Err(DecodeError::UnexpectedEnd);
    }
    parse_removals_n(data, p, cnt as usize, reg)
}

/// Decodes a whole update message against the registry.
pub fn parse_update_message(data: &[u8], reg: &ReplicationRegistry) -> (r: Result<
    UpdateMessage,
    DecodeError,
>)
    ensures
        match update_parse(data@, reg.entries@) {
            Some(v) => r matches Ok(m) && m@ == v,
            None => r.is_err(),
        },
{
    if data.len() < 5 {
        return Err(DecodeError::UnexpectedEnd);
    }
    let flags = *vstd::slice::slice_index_get(data, 0);
    let (tickv, _p0) = match read_u32_le(data, 1) {
        Ok(v) => v,
        Err(er) => {
            return Err(er);
        },
    };
    let tick = RepliconTick(tickv);
    let has_m = flags % 2 == 1;
    let has_d = (flags / 2) % 2 == 1;
    let has_r = (flags / 4) % 2 == 1;
    let has_c = (flags / 8) % 2 == 1;
    let (mappings, p1): (Vec<(Entity, Entity)>, usize) = if has_m {
        if !has_d && !has_r && !has_c {
            match parse_mappings_dyn(data, 5) {
                Ok(v) => v,
                Err(er) => {
                    return Err(er);
                },
            }
        } else {
            match parse_mappings_sized(data, 5) {
                Ok(v) => v,
                Err(er) => {
                    return Err(er);
                },
            }
        }
    } else {
        (Vec::new(), 5)
    };
    let (despawns, p2): (Vec<Entity>, usize) = if has_d {
        if !has_r && !has_c {
            match parse_despawns_dyn(data, p1) {
                Ok(v) => v,
                Err(er) => {
                    return Err(er);
                },
            }
        } else {
            match parse_despawns_sized(data, p1) {
                Ok(v) => v,
                Err(er) => {
                    return Err(er);
                },
            }
        }
    } else {
        (Vec::new(), p1)
    };
    let (removals, p3): (Vec<EntityRemovals>, usize) = if has_r {
        if !has_c {
            match parse_removals_dyn(data, p2, reg) {
                Ok(v) => v,
                Err(er) => {
                    return Err(er);
                },
            }
        } else {
            match parse_removals_sized(data, p2, reg) {
                Ok(v) => v,
                Err(er) => {
                    return Err(er);
                },
            }
        }
    } else {
        (Vec::new(), p2)
    };
    let (changes, _p4): (Vec<EntityChanges>, usize) = if has_c {
        match parse_changes_dyn(data, p3, reg) {
            Ok(v) => v,
            Err(er) => {
                return Err(er);
            },
        }
    } else {
        (Vec::new(), p3)
    };
    proof {
        assert(removals_view(Seq::<EntityRemovals>::empty()) =~= Seq::<
            (Entity, Seq<FnsId>),
        >::empty());
        assert(changes_view(Seq::<EntityChanges>::empty()) =~= Seq::<
            (Entity, Seq<(FnsId, Seq<u8>)>),
        >::empty());
    }
    Ok(UpdateMessage { tick, mappings, despawns, removals, changes })
}

/// Decodes a mutate message header.
pub fn parse_mutate_header(data: &[u8], track: bool) -> (r: Result<
    (MutateHeader, usize),
    DecodeError,
>)
    ensures
        match mutate_header_parse(data@, track) {
            Some((h, end)) => r matches Ok(p) && p.0 == h && p.1 == end,
            None => r.is_err(),
        },
        r matches Ok(p) ==> p.1 <= data@.len(),
{
    if data.len() < 8 {
        return Err(DecodeError::UnexpectedEnd);
    }
    let (ut, _) = match read_u32_le(data, 0) {
        Ok(v) => v,
        Err(er) => {
            return Err(er);
        },
    };
    let (mt, _) = match read_u32_le(data, 4) {
        Ok(v) => v,
        Err(er) => {
            return Err(er);
        },
    };
    let (count, p1): (u64, usize) = if track {
        match read_varint_at(data, 8) {
            Ok(v) => v,
            Err(er) => {
                return Err(er);
            },
        }
    } else {
        (1u64, 8)
    };
    let (idx, p2) = match read_varint_at(data, p1) {
        Ok(v) => v,
        Err(er) => {
            return Err(er);
        },
    };
    if idx > 0xFFFF {
        return Err(DecodeError::MalformedVarint);
    }
    Ok(
        (
            MutateHeader {
                update_tick: RepliconTick(ut),
                message_tick: RepliconTick(mt),
                messages_count: count,
                mutate_index: idx as u16,
            },
            p2,
        ),
    )
}

/// Decodes the entity entries of a mutate message payload, starting at `pos`.
pub fn parse_mutations(data: &[u8], pos: usize) -> (r: Result<Vec<MutationEntry>, DecodeError>)
    requires
        pos <= data@.len(),
    ensures
        match mutations_dyn(data@, pos as int) {
            Some((elems, _end)) => r matches Ok(v) && mutations_view(v@) == elems,
            None => r.is_err(),
        },
{
    match parse_mutations_dyn(data, pos) {
        Ok((v, _end)) => Ok(v),
        Err(er) => Err(er),
    }
}

/// Decodes one mutation entry's raw data into its components.
pub fn parse_entry_components(data: &[u8], reg: &ReplicationRegistry) -> (r: Result<
    Vec<ComponentChange>,
    DecodeError,
>)
    ensures
        match components_dyn(data@, 0, reg.entries@) {
            Some((elems, _end)) => r matches Ok(v) && components_view(v@) == elems,
            None => r.is_err(),
        },
{
    match parse_components_dyn(data, 0, reg) {
        Ok((v, _end)) => Ok(v),
        Err(er) => Err(er),
    }
}

// ---------------------------------------------------------------------------
// Wire builders
// ---------------------------------------------------------------------------

/// Wire form of one mapping element.
pub open spec fn mapping_bytes(m: (Entity, Entity)) -> Seq<u8> {
    entity_bytes(m.0) + entity_bytes(m.1)
}

pub open spec fn mappings_bytes(ms: Seq<(Entity, Entity)>) -> Seq<u8>
    decreases ms.len(),
{
    if ms.len() == 0 {
        Seq::empty()
    } else {
        mapping_bytes(ms[0]) + mappings_bytes(ms.skip(1))
    }
}

pub open spec fn despawns_bytes(ds: Seq<Entity>) -> Seq<u8>
    decreases ds.len(),
{
    if ds.len() == 0 {
        Seq::empty()
    } else {
        entity_bytes(ds[0]) + despawns_bytes(ds.skip(1))
    }
}

pub open spec fn fns_list_bytes(ids: Seq<FnsId>) -> Seq<u8>
    decreases ids.len(),
{
    if ids.len() == 0 {
        Seq::empty()
    } else {
        compact_bytes(ids[0].0) + fns_list_bytes(ids.skip(1))
    }
}

/// Wire form of one removal element.
pub open spec fn removal_bytes(r: (Entity, Seq<FnsId>)) -> Seq<u8> {
    entity_bytes(r.0) + leb_bytes(r.1.len() as u64) + fns_list_bytes(r.1)
}

pub open spec fn removals_bytes(rs: Seq<(Entity, Seq<FnsId>)>) -> Seq<u8>
    decreases rs.len(),
{
    if rs.len() == 0 {
        Seq::empty()
    } else {
        removal_bytes(rs[0]) + removals_bytes(rs.skip(1))
    }
}

/// Wire form of one component element.
pub open spec fn component_bytes(c: (FnsId, Seq<u8>)) -> Seq<u8> {
    compact_bytes(c.0.0) + c.1
}

pub open spec fn components_bytes(cs: Seq<(FnsId, Seq<u8>)>) -> Seq<u8>
    decreases cs.len(),
{
    if cs.len() == 0 {
        Seq::empty()
    } else {
        component_bytes(cs[0]) + components_bytes(cs.skip(1))
    }
}

/// Wire form of one change element.
pub open spec fn change_bytes(c: (Entity, Seq<(FnsId, Seq<u8>)>)) -> Seq<u8> {
    entity_bytes(c.0) + leb_bytes(c.1.len() as u64) + components_bytes(c.1)
}

pub open spec fn changes_bytes(cs: Seq<(Entity, Seq<(FnsId, Seq<u8>)>)>) -> Seq<u8>
    decreases cs.len(),
{
    if cs.len() == 0 {
        Seq::empty()
    } else {
        change_bytes(cs[0]) + changes_bytes(cs.skip(1))
    }
}

/// Wire form of one mutation entry.
pub open spec fn mutation_entry_bytes(m: (Entity, Seq<u8>)) -> Seq<u8> {
    entity_bytes(m.0) + leb_bytes(m.1.len() as u64) + m.1
}

pub open spec fn mutation_entries_bytes(ms: Seq<(Entity, Seq<u8>)>) -> Seq<u8>
    decreases ms.len(),
{
    if ms.len() == 0 {
        Seq::empty()
    } else {
        mutation_entry_bytes(ms[0]) + mutation_entries_bytes(ms.skip(1))
    }
}

/// The flags byte a message with these arrays carries: one bit for each
/// group that is present.
pub open spec fn update_flags_of(v: UpdateMessageView) -> u8 {
    ((if v.mappings.len() > 0 {
        FLAG_MAPPINGS as int
    } else {
        0int
    }) + (if v.despawns.len() > 0 {
        FLAG_DESPAWNS as int
    } else {
        0int
    }) + (if v.removals.len() > 0 {
        FLAG_REMOVALS as int
    } else {
        0int
    }) + (if v.changes.len() > 0 {
        FLAG_CHANGES as int
    } else {
        0int
    })) as u8
}

/// Wire form of a whole update message. Every present array is preceded by
/// its element count except the last one, which runs to the end.
pub open spec fn update_message_bytes(v: UpdateMessageView) -> Seq<u8> {
    let f = update_flags_of(v);
    seq![f] + u32_le_bytes(v.tick.0) + (if v.mappings.len() > 0 {
        (if mappings_is_last(f) {
            Seq::<u8>::empty()
        } else {
            leb_bytes(v.mappings.len() as u64)
        }) + mappings_bytes(v.mappings)
    } else {
        Seq::<u8>::empty()
    }) + (if v.despawns.len() > 0 {
        (if despawns_is_last(f) {
            Seq::<u8>::empty()
        } else {
            leb_bytes(v.despawns.len() as u64)
        }) + despawns_bytes(v.despawns)
    } else {
        Seq::<u8>::empty()
    }) + (if v.removals.len() > 0 {
        (if removals_is_last(f) {
            Seq::<u8>::empty()
        } else {
            leb_bytes(v.removals.len() as u64)
        }) + removals_bytes(v.removals)
    } else {
        Seq::<u8>::empty()
    }) + (if v.changes.len() > 0 {
        changes_bytes(v.changes)
    } else {
        Seq::<u8>::empty()
    })
}

/// Wire form of a whole mutate message. The fragment count is present only
/// when acknowledgment tracking is on, by shared configuration.
pub open spec fn mutate_message_bytes(h: MutateHeader, ms: Seq<(Entity, Seq<u8>)>, track: bool) -> Seq<u8> {
    u32_le_bytes(h.update_tick.0) + u32_le_bytes(h.message_tick.0) + (if track {
        leb_bytes(h.messages_count)
    } else {
        Seq::<u8>::empty()
    }) + leb_bytes(h.mutate_index as u64) + mutation_entries_bytes(ms)
}

/// Appends every byte of `data` to `buf`.
fn push_bytes(buf: &mut Vec<u8>, data: &Vec<u8>)
    ensures
        final(buf)@ == old(buf)@ + data@,
{
    let mut i: usize = 0;
    while i < data.len()
        invariant
            i <= data@.len(),
            buf@ == old(buf)@ + data@.take(i as int),
        decreases data@.len() - i,
    {
        let b = data[i];
        proof {
            assert(old(buf)@ + data@.take(i as int) + seq![data@[i as int]] =~= old(buf)@
                + data@.take(i as int + 1));
        }
        buf.push(b);
        i = i + 1;
    }
    proof {
        assert(old(buf)@ + data@.take(data@.len() as int) =~= old(buf)@ + data@);
    }
}

/// Appends the wire form of a mappings list.
fn write_mappings(buf: &mut Vec<u8>, ms: &Vec<(Entity, Entity)>)
    ensures
        final(buf)@ == old(buf)@ + mappings_bytes(ms@),
{
    proof {
        assert(ms@.skip(0) =~= ms@);
    }
    let mut i: usize = 0;
    while i < ms.len()
        invariant
            i <= ms@.len(),
            old(buf)@ + mappings_bytes(ms@) == buf@ + mappings_bytes(ms@.skip(i as int)),
        decreases ms@.len() - i,
    {
        let ghost pre = buf@;
        let (se, ce) = ms[i];
        crate::entity_serde::serialize_entity(buf, se);
        crate::entity_serde::serialize_entity(buf, ce);
        proof {
            assert(ms@.skip(i as int)[0] == ms@[i as int]);
            assert(ms@.skip(i as int).skip(1) =~= ms@.skip(i as int + 1));
            assert(pre + (mapping_bytes(ms@[i as int]) + mappings_bytes(ms@.skip(i as int + 1)))
                =~= buf@ + mappings_bytes(ms@.skip(i as int + 1)));
        }
        i = i + 1;
    }
    proof {
        assert(buf@ + mappings_bytes(ms@.skip(ms@.len() as int)) =~= buf@);
    }
}

/// Appends the wire form of a despawns list.
fn write_despawns(buf: &mut Vec<u8>, ds: &Vec<Entity>)
    ensures
        final(buf)@ == old(buf)@ + despawns_bytes(ds@),
{
    proof {
        assert(ds@.skip(0) =~= ds@);
    }
    let mut i: usize = 0;
    while i < ds.len()
        invariant
            i <= ds@.len(),
            old(buf)@ + despawns_bytes(ds@) == buf@ + despawns_bytes(ds@.skip(i as int)),
        decreases ds@.len() - i,
    {
        let ghost pre = buf@;
        let e = ds[i];
        crate::entity_serde::serialize_entity(buf, e);
        proof {
            assert(ds@.skip(i as int)[0] == ds@[i as int]);
            assert(ds@.skip(i as int).skip(1) =~= ds@.skip(i as int + 1));
            assert(pre + (entity_bytes(ds@[i as int]) + despawns_bytes(ds@.skip(i as int + 1)))
                =~= buf@ + despawns_bytes(ds@.skip(i as int + 1)));
        }
        i = i + 1;
    }
    proof {
        assert(buf@ + despawns_bytes(ds@.skip(ds@.len() as int)) =~= buf@);
    }
}

/// Appends the wire form of a function-set id list.
fn write_fns_list(buf: &mut Vec<u8>, ids: &Vec<FnsId>)
    ensures
        final(buf)@ == old(buf)@ + fns_list_bytes(ids@),
{
    proof {
        assert(ids@.skip(0) =~= ids@);
    }
    let mut i: usize = 0;
    while i < ids.len()
        invariant
            i <= ids@.len(),
            old(buf)@ + fns_list_bytes(ids@) == buf@ + fns_list_bytes(ids@.skip(i as int)),
        decreases ids@.len() - i,
    {
        let ghost pre = buf@;
        let f = ids[i];
        crate::codec::write_compact(buf, f.0);
        proof {
            assert(ids@.skip(i as int)[0] == ids@[i as int]);
            assert(ids@.skip(i as int).skip(1) =~= ids@.skip(i as int + 1));
            assert(pre + (compact_bytes(ids@[i as int].0) + fns_list_bytes(ids@.skip(i as int + 1)))
                =~= buf@ + fns_list_bytes(ids@.skip(i as int + 1)));
        }
        i = i + 1;
    }
    proof {
        assert(buf@ + fns_list_bytes(ids@.skip(ids@.len() as int)) =~= buf@);
    }
}

/// Appends the wire form of a removals list.
fn write_removals(buf: &mut Vec<u8>, rs: &Vec<EntityRemovals>)
    ensures
        final(buf)@ == old(buf)@ + removals_bytes(removals_view(rs@)),
{
    proof {
        assert(removals_view(rs@).skip(0) =~= removals_view(rs@));
    }
    let mut i: usize = 0;
    while i < rs.len()
        invariant
            i <= rs@.len(),
            old(buf)@ + removals_bytes(removals_view(rs@)) == buf@ + removals_bytes(
                removals_view(rs@).skip(i as int),
            ),
        decreases rs@.len() - i,
    {
        let ghost pre = buf@;
        let r = &rs[i];
        crate::entity_serde::serialize_entity(buf, r.entity);
        crate::codec::write_varint(buf, r.fns_ids.len() as u64);
        write_fns_list(buf, &r.fns_ids);
        proof {
            assert(removals_view(rs@).skip(i as int)[0] == removals_view(rs@)[i as int]);
            assert(removals_view(rs@)[i as int] == rs@[i as int]@);
            assert(removals_view(rs@).skip(i as int).skip(1) =~= removals_view(rs@).skip(
                i as int + 1,
            ));
            assert(pre + (removal_bytes(rs@[i as int]@) + removals_bytes(
                removals_view(rs@).skip(i as int + 1),
            )) =~= buf@ + removals_bytes(removals_view(rs@).skip(i as int + 1)));
        }
        i = i + 1;
    }
    proof {
        assert(buf@ + removals_bytes(removals_view(rs@).skip(rs@.len() as int)) =~= buf@);
    }
}

/// Appends the wire form of a components list.
fn write_components(buf: &mut Vec<u8>, cs: &Vec<ComponentChange>)
    ensures
        final(buf)@ == old(buf)@ + components_bytes(components_view(cs@)),
{
    proof {
        assert(components_view(cs@).skip(0) =~= components_view(cs@));
    }
    let mut i: usize = 0;
    while i < cs.len()
        invariant
            i <= cs@.len(),
            old(buf)@ + components_bytes(components_view(cs@)) == buf@ + components_bytes(
                components_view(cs@).skip(i as int),
            ),
        decreases cs@.len() - i,
    {
        let ghost pre = buf@;
        let c = &cs[i];
        crate::codec::write_compact(buf, c.fns_id.0);
        push_bytes(buf, &c.data);
        proof {
            assert(components_view(cs@).skip(i as int)[0] == components_view(cs@)[i as int]);
            assert(components_view(cs@)[i as int] == cs@[i as int]@);
            assert(components_view(cs@).skip(i as int).skip(1) =~= components_view(cs@).skip(
                i as int + 1,
            ));
            assert(pre + (component_bytes(cs@[i as int]@) + components_bytes(
                components_view(cs@).skip(i as int + 1),
            )) =~= buf@ + components_bytes(components_view(cs@).skip(i as int + 1)));
        }
        i = i + 1;
    }
    proof {
        assert(buf@ + components_bytes(components_view(cs@).skip(cs@.len() as int)) =~= buf@);
    }
}

/// Appends the wire form of a changes list.
fn write_changes(buf: &mut Vec<u8>, cs: &Vec<EntityChanges>)
    ensures
        final(buf)@ == old(buf)@ + changes_bytes(changes_view(cs@)),
{
    proof {
        assert(changes_view(cs@).skip(0) =~= changes_view(cs@));
    }
    let mut i: usize = 0;
    while i < cs.len()
        invariant
            i <= cs@.len(),
            old(buf)@ + changes_bytes(changes_view(cs@)) == buf@ + changes_bytes(
                changes_view(cs@).skip(i as int),
            ),
        decreases cs@.len() - i,
    {
        let ghost pre = buf@;
        let c = &cs[i];
        crate::entity_serde::serialize_entity(buf, c.entity);
        crate::codec::write_varint(buf, c.components.len() as u64);
        write_components(buf, &c.components);
        proof {
            assert(changes_view(cs@).skip(i as int)[0] == changes_view(cs@)[i as int]);
            assert(changes_view(cs@)[i as int] == cs@[i as int]@);
            assert(changes_view(cs@).skip(i as int).skip(1) =~= changes_view(cs@).skip(
                i as int + 1,
            ));
            assert(pre + (change_bytes(cs@[i as int]@) + changes_bytes(
                changes_view(cs@).skip(i as int + 1),
            )) =~= buf@ + changes_bytes(changes_view(cs@).skip(i as int + 1)));
        }
        i = i + 1;
    }
    proof {
        assert(buf@ + changes_bytes(changes_view(cs@).skip(cs@.len() as int)) =~= buf@);
    }
}

/// Appends the wire form of a mutation-entry list.
fn write_mutation_entries(buf: &mut Vec<u8>, ms: &Vec<MutationEntry>)
    ensures
        final(buf)@ == old(buf)@ + mutation_entries_bytes(mutations_view(ms@)),
{
    proof {
        assert(mutations_view(ms@).skip(0) =~= mutations_view(ms@));
    }
    let mut i: usize = 0;
    while i < ms.len()
        invariant
            i <= ms@.len(),
            old(buf)@ + mutation_entries_bytes(mutations_view(ms@)) == buf@
                + mutation_entries_bytes(mutations_view(ms@).skip(i as int)),
        decreases ms@.len() - i,
    {
        let ghost pre = buf@;
        let m = &ms[i];
        crate::entity_serde::serialize_entity(buf, m.entity);
        crate::codec::write_varint(buf, m.data.len() as u64);
        push_bytes(buf, &m.data);
        proof {
            assert(mutations_view(ms@).skip(i as int)[0] == mutations_view(ms@)[i as int]);
            assert(mutations_view(ms@)[i as int] == ms@[i as int]@);
            assert(mutations_view(ms@).skip(i as int).skip(1) =~= mutations_view(ms@).skip(
                i as int + 1,
            ));
            assert(pre + (mutation_entry_bytes(ms@[i as int]@) + mutation_entries_bytes(
                mutations_view(ms@).skip(i as int + 1),
            )) =~= buf@ + mutation_entries_bytes(mutations_view(ms@).skip(i as int + 1)));
        }
        i = i + 1;
    }
    proof {
        assert(buf@ + mutation_entries_bytes(mutations_view(ms@).skip(ms@.len() as int)) =~= buf@);
    }
}

/// Encodes a whole update message: the flags byte reflects which groups are
/// present, and only the last present group goes without a length prefix.
#[verifier::rlimit(60)]
pub fn serialize_update_message(msg: &UpdateMessage) -> (r: Vec<u8>)
    ensures
        r@ == update_message_bytes(msg@),
{
    let m1: u8 = if msg.mappings.len() > 0 {
        FLAG_MAPPINGS
    } else {
        0
    };
    let d1: u8 = if msg.despawns.len() > 0 {
        FLAG_DESPAWNS
    } else {
        0
    };
    let r1: u8 = if msg.removals.len() > 0 {
        FLAG_REMOVALS
    } else {
        0
    };
    let c1: u8 = if msg.changes.len() > 0 {
        FLAG_CHANGES
    } else {
        0
    };
    let flags: u8 = m1 + d1 + r1 + c1;
    let mut buf: Vec<u8> = Vec::new();
    buf.push(flags);
    crate::codec::write_u32_le(&mut buf, msg.tick.get());
    let ghost after_tick = buf@;
    if msg.mappings.len() > 0 {
        if !(d1 == 0 && r1 == 0 && c1 == 0) {
            crate::codec::write_varint(&mut buf, msg.mappings.len() as u64);
        }
        write_mappings(&mut buf, &msg.mappings);
    }
    let ghost after_m = buf@;
    if msg.despawns.len() > 0 {
        if !(r1 == 0 && c1 == 0) {
            crate::codec::write_varint(&mut buf, msg.despawns.len() as u64);
        }
        write_despawns(&mut buf, &msg.despawns);
    }
    let ghost after_d = buf@;
    if msg.removals.len() > 0 {
        if !(c1 == 0) {
            crate::codec::write_varint(&mut buf, msg.removals.len() as u64);
        }
        write_removals(&mut buf, &msg.removals);
    }
    let ghost after_r = buf@;
    if msg.changes.len() > 0 {
        write_changes(&mut buf, &msg.changes);
    }
    proof {
        assert(flags == update_flags_of(msg@));
        let v = msg@;
        let mpart = if v.mappings.len() > 0 {
            (if mappings_is_last(flags) {
                Seq::<u8>::empty()
            } else {
                leb_bytes(v.mappings.len() as u64)
            }) + mappings_bytes(v.mappings)
        } else {
            Seq::<u8>::empty()
        };
        let dpart = if v.despawns.len() > 0 {
            (if despawns_is_last(flags) {
                Seq::<u8>::empty()
            } else {
                leb_bytes(v.despawns.len() as u64)
            }) + despawns_bytes(v.despawns)
        } else {
            Seq::<u8>::empty()
        };
        let rpart = if v.removals.len() > 0 {
            (if removals_is_last(flags) {
                Seq::<u8>::empty()
            } else {
                leb_bytes(v.removals.len() as u64)
            }) + removals_bytes(v.removals)
        } else {
            Seq::<u8>::empty()
        };
        let cpart = if v.changes.len() > 0 {
            changes_bytes(v.changes)
        } else {
            Seq::<u8>::empty()
        };
        assert(after_tick =~= seq![flags] + u32_le_bytes(v.tick.0));
        assert(after_m =~= after_tick + mpart);
        assert(after_d =~= after_m + dpart);
        assert(after_r =~= after_d + rpart);
        assert(buf@ =~= after_r + cpart);
        assert(buf@ =~= update_message_bytes(msg@));
    }
    buf
}

/// Encodes a whole mutate message around already-encoded entries.
pub fn serialize_mutate_message(header: &MutateHeader, entries: &Vec<MutationEntry>, track: bool) -> (r: Vec<u8>)
    ensures
        r@ == mutate_message_bytes(*header, mutations_view(entries@), track),
{
    let mut buf: Vec<u8> = Vec::new();
    crate::codec::write_u32_le(&mut buf, header.update_tick.get());
    crate::codec::write_u32_le(&mut buf, header.message_tick.get());
    if track {
        crate::codec::write_varint(&mut buf, header.messages_count);
    }
    crate::codec::write_varint(&mut buf, header.mutate_index as u64);
    write_mutation_entries(&mut buf, entries);
    proof {
        assert(buf@ =~= mutate_message_bytes(*header, mutations_view(entries@), track));
    }
    buf
}

} // verus!
