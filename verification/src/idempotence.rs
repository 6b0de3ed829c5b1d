use vstd::prelude::*;

verus! {

use crate::applier::{
    spec_apply_update, spec_apply_change, spec_resolve, spec_write_components, ApplyState,
    state_wf,
};
use crate::confirmed::{Confirmed, lemma_confirm_idempotent};
use crate::entity::Entity;
use crate::messages::UpdateMessageView;
use crate::registry::{FnsId, FnsEntry};
use crate::server_entity_map::entity_of_bits;
use crate::tick::{RepliconTick, tick_gt, tick_max};
use crate::world::{
    ComponentSlotView, WorldEntityView, entity_wf, slot_index, spec_set_slot, spec_confirm_opt,
    spec_find, lemma_slot_index, lemma_spec_find,
};

/// Replacing an element in place without changing its identifier leaves
/// every entity lookup where it was.
proof fn lemma_spec_find_update(es: Seq<WorldEntityView>, i: int, x: WorldEntityView, id: Entity)
    requires
        0 <= i < es.len(),
        x.id == es[i].id,
    ensures
        spec_find(es.update(i, x), id) == spec_find(es, id),
    decreases es.len(),
{
    let es2 = es.update(i, x);
    if es.len() > 0 {
        if i == 0 {
            if es[0].id != id {
                assert(es2.skip(1) =~= es.skip(1));
            }
        } else {
            assert(es2[0] == es[0]);
            if es[0].id != id {
                assert(es2.skip(1) =~= es.skip(1).update(i - 1, x));
                lemma_spec_find_update(es.skip(1), i - 1, x, id);
            }
        }
    }
}

/// When identifiers are unique, a lookup lands on the one position that
/// holds the identifier.
proof fn lemma_spec_find_unique(es: Seq<WorldEntityView>, k: int)
    requires
        0 <= k < es.len(),
        forall|a: int, b: int| 0 <= a < b < es.len() ==> es[a].id != es[b].id,
    ensures
        spec_find(es, es[k].id) == k,
    decreases es.len(),
{
    if k == 0 {
    } else {
        assert(es[0].id != es[k].id);
        assert(es.skip(1)[k - 1] == es[k]);
        assert(forall|a: int, b: int|
            0 <= a < b < es.skip(1).len() ==> (#[trigger] es.skip(1)[a]).id != (#[trigger] es.skip(
                1,
            )[b]).id) by {
            assert(forall|a: int| 0 <= a < es.skip(1).len() ==> #[trigger] es.skip(1)[a] == es[a + 1]);
        }
        lemma_spec_find_unique(es.skip(1), k - 1);
    }
}

/// A freshly pushed slot of an absent type is found at the end.
proof fn lemma_slot_index_push(cs: Seq<ComponentSlotView>, slot: ComponentSlotView)
    requires
        slot_index(cs, slot.component_id) < 0,
    ensures
        slot_index(cs.push(slot), slot.component_id) == cs.len(),
    decreases cs.len(),
{
    let cs2 = cs.push(slot);
    if cs.len() == 0 {
        assert(cs2[0] == slot);
    } else {
        assert(cs2[0] == cs[0]);
        assert(cs2.skip(1) =~= cs.skip(1).push(slot));
        lemma_slot_index_push(cs.skip(1), slot);
    }
}

/// Each component type appears at most once among the slots.
spec fn unique_ids(cs: Seq<ComponentSlotView>) -> bool {
    forall|p: int, q: int|
        0 <= p < q < cs.len() ==> cs[p].component_id != cs[q].component_id
}

/// The value a write list leaves in the slot of component type `cid`: the
/// data of its last element that the registry resolves to that type, if any
/// does.
spec fn last_write(comps: Seq<(FnsId, Seq<u8>)>, reg: Seq<FnsEntry>, cid: u64) -> Option<Seq<u8>>
    decreases comps.len(),
{
    if comps.len() == 0 {
        None
    } else {
        match last_write(comps.skip(1), reg, cid) {
            Some(d) => Some(d),
            None => {
                if comps[0].0.0 < reg.len() && reg[comps[0].0.0 as int].component_id == cid {
                    Some(comps[0].1)
                } else {
                    None
                }
            },
        }
    }
}

/// Every type the write list names is present among the slots.
spec fn has_written_ids(
    cs: Seq<ComponentSlotView>,
    comps: Seq<(FnsId, Seq<u8>)>,
    reg: Seq<FnsEntry>,
) -> bool {
    forall|k: int|
        0 <= k < comps.len() && (#[trigger] comps[k]).0.0 < reg.len() ==> slot_index(
            cs,
            reg[comps[k].0.0 as int].component_id,
        ) >= 0
}

/// Every slot whose type the write list names holds the last value the list
/// writes for it, at the list's tick.
spec fn holds_last_writes(
    cs: Seq<ComponentSlotView>,
    comps: Seq<(FnsId, Seq<u8>)>,
    reg: Seq<FnsEntry>,
    tick: RepliconTick,
) -> bool {
    forall|p: int|
        0 <= p < cs.len() ==> match last_write(comps, reg, (#[trigger] cs[p]).component_id) {
            Some(d) => cs[p] == (ComponentSlotView {
                component_id: cs[p].component_id,
                data: d,
                tick,
            }),
            None => true,
        }
}

/// Lookup positions depend only on the component type each position holds.
proof fn lemma_slot_index_same_ids(
    cs: Seq<ComponentSlotView>,
    cs2: Seq<ComponentSlotView>,
    cid: u64,
)
    requires
        cs.len() == cs2.len(),
        forall|p: int| 0 <= p < cs.len() ==> (#[trigger] cs[p]).component_id == cs2[p].component_id,
    ensures
        slot_index(cs, cid) == slot_index(cs2, cid),
    decreases cs.len(),
{
    if cs.len() > 0 {
        assert(forall|p: int|
            0 <= p < cs.skip(1).len() ==> (#[trigger] cs.skip(1)[p]).component_id == cs2.skip(
                1,
            )[p].component_id) by {
            assert(forall|p: int|
                0 <= p < cs.skip(1).len() ==> #[trigger] cs.skip(1)[p] == cs[p + 1] && cs2.skip(
                    1,
                )[p] == cs2[p + 1]);
        }
        lemma_slot_index_same_ids(cs.skip(1), cs2.skip(1), cid);
    }
}

/// Appending a slot of another type moves no lookup.
proof fn lemma_slot_index_push_other(
    cs: Seq<ComponentSlotView>,
    slot: ComponentSlotView,
    cid: u64,
)
    requires
        slot.component_id != cid,
    ensures
        slot_index(cs.push(slot), cid) == slot_index(cs, cid),
    decreases cs.len(),
{
    let p = cs.push(slot);
    if cs.len() == 0 {
        assert(p[0] == slot);
        assert(p.skip(1) =~= Seq::<ComponentSlotView>::empty());
        assert(slot_index(p.skip(1), cid) == -1);
        assert(slot_index(cs, cid) == -1);
    } else {
        assert(p[0] == cs[0]);
        assert(p.skip(1) =~= cs.skip(1).push(slot));
        lemma_slot_index_push_other(cs.skip(1), slot, cid);
    }
}

/// Writing one type leaves every other type's slot where it was.
proof fn lemma_set_slot_other(cs: Seq<ComponentSlotView>, slot: ComponentSlotView, cid: u64)
    requires
        slot.component_id != cid,
    ensures
        slot_index(spec_set_slot(cs, slot), cid) == slot_index(cs, cid),
        slot_index(cs, cid) >= 0 ==> spec_set_slot(cs, slot)[slot_index(cs, cid)] == cs[slot_index(
            cs,
            cid,
        )],
{
    let j = slot_index(cs, slot.component_id);
    lemma_slot_index(cs, slot.component_id);
    lemma_slot_index(cs, cid);
    if j >= 0 {
        lemma_slot_index_same_ids(cs, cs.update(j, slot), cid);
    } else {
        lemma_slot_index_push_other(cs, slot, cid);
    }
}

/// Writing a slot keeps component types unique.
proof fn lemma_set_slot_unique(cs: Seq<ComponentSlotView>, slot: ComponentSlotView)
    requires
        unique_ids(cs),
    ensures
        unique_ids(spec_set_slot(cs, slot)),
{
    let j = slot_index(cs, slot.component_id);
    lemma_slot_index(cs, slot.component_id);
    let cs2 = spec_set_slot(cs, slot);
    assert forall|p: int, q: int| 0 <= p < q < cs2.len() implies cs2[p].component_id
        != cs2[q].component_id by {
        if j >= 0 {
            assert(cs[j].component_id == slot.component_id);
        } else {
            if q == cs.len() {
                assert(cs2[q] == slot);
                assert(cs[p].component_id != slot.component_id);
            }
        }
    }
}

/// A type present before a write is still present after it.
proof fn lemma_write_keeps_presence(
    cs: Seq<ComponentSlotView>,
    comps: Seq<(FnsId, Seq<u8>)>,
    reg: Seq<FnsEntry>,
    tick: RepliconTick,
    cid: u64,
)
    requires
        slot_index(cs, cid) >= 0,
    ensures
        slot_index(spec_write_components(cs, comps, reg, tick), cid) >= 0,
    decreases comps.len(),
{
    if comps.len() > 0 {
        if comps[0].0.0 < reg.len() {
            let cid0 = reg[comps[0].0.0 as int].component_id;
            let slot0 = ComponentSlotView { component_id: cid0, data: comps[0].1, tick };
            let cs1 = spec_set_slot(cs, slot0);
            if cid0 == cid {
                lemma_slot_index(cs, cid);
                lemma_slot_index_same_ids(cs, cs1, cid);
            } else {
                lemma_set_slot_other(cs, slot0, cid);
            }
            lemma_write_keeps_presence(cs1, comps.skip(1), reg, tick, cid);
        } else {
            lemma_write_keeps_presence(cs, comps.skip(1), reg, tick, cid);
        }
    }
}

/// A write list that never names a type leaves that type's slot in place.
proof fn lemma_write_untouched(
    cs: Seq<ComponentSlotView>,
    comps: Seq<(FnsId, Seq<u8>)>,
    reg: Seq<FnsEntry>,
    tick: RepliconTick,
    cid: u64,
)
    requires
        last_write(comps, reg, cid) is None,
    ensures
        slot_index(spec_write_components(cs, comps, reg, tick), cid) == slot_index(cs, cid),
        slot_index(cs, cid) >= 0 ==> spec_write_components(cs, comps, reg, tick)[slot_index(
            cs,
            cid,
        )] == cs[slot_index(cs, cid)],
    decreases comps.len(),
{
    if comps.len() > 0 {
        if comps[0].0.0 < reg.len() {
            let cid0 = reg[comps[0].0.0 as int].component_id;
            let slot0 = ComponentSlotView { component_id: cid0, data: comps[0].1, tick };
            let cs1 = spec_set_slot(cs, slot0);
            assert(cid0 != cid);
            lemma_set_slot_other(cs, slot0, cid);
            lemma_write_untouched(cs1, comps.skip(1), reg, tick, cid);
        } else {
            lemma_write_untouched(cs, comps.skip(1), reg, tick, cid);
        }
    }
}

/// After a write, the slot types stay unique, every type the list names is
/// present, and each named type holds the last value the list writes for it.
proof fn lemma_write_last_values(
    cs: Seq<ComponentSlotView>,
    comps: Seq<(FnsId, Seq<u8>)>,
    reg: Seq<FnsEntry>,
    tick: RepliconTick,
)
    requires
        unique_ids(cs),
    ensures
        unique_ids(spec_write_components(cs, comps, reg, tick)),
        has_written_ids(spec_write_components(cs, comps, reg, tick), comps, reg),
        holds_last_writes(spec_write_components(cs, comps, reg, tick), comps, reg, tick),
    decreases comps.len(),
{
    let w = spec_write_components(cs, comps, reg, tick);
    if comps.len() == 0 {
    } else {
        let rest = comps.skip(1);
        assert(forall|k: int| 0 <= k < rest.len() ==> #[trigger] rest[k] == comps[k + 1]);
        if comps[0].0.0 < reg.len() {
            let cid0 = reg[comps[0].0.0 as int].component_id;
            let slot0 = ComponentSlotView { component_id: cid0, data: comps[0].1, tick };
            let cs1 = spec_set_slot(cs, slot0);
            lemma_set_slot_unique(cs, slot0);
            lemma_write_last_values(cs1, rest, reg, tick);
            let j = slot_index(cs, cid0);
            lemma_slot_index(cs, cid0);
            if j >= 0 {
                lemma_slot_index_same_ids(cs, cs1, cid0);
                assert(slot_index(cs1, cid0) == j && cs1[j] == slot0);
            } else {
                lemma_slot_index_push(cs, slot0);
                assert(slot_index(cs1, cid0) == cs.len() as int && cs1[cs.len() as int] == slot0);
            }
            lemma_write_keeps_presence(cs1, rest, reg, tick, cid0);
            assert(w == spec_write_components(cs1, rest, reg, tick));
            assert forall|k: int|
                0 <= k < comps.len() && (#[trigger] comps[k]).0.0 < reg.len() implies slot_index(
                w,
                reg[comps[k].0.0 as int].component_id,
            ) >= 0 by {
                if k > 0 {
                    assert(rest[k - 1] == comps[k]);
                    assert(slot_index(w, reg[rest[k - 1].0.0 as int].component_id) >= 0);
                }
            }
            assert forall|p: int| 0 <= p < w.len() implies match last_write(
                comps,
                reg,
                (#[trigger] w[p]).component_id,
            ) {
                Some(d) => w[p] == (ComponentSlotView {
                    component_id: w[p].component_id,
                    data: d,
                    tick,
                }),
                None => true,
            } by {
                let cidp = w[p].component_id;
                match last_write(comps, reg, cidp) {
                    Some(d) => {
                        match last_write(rest, reg, cidp) {
                            Some(d2) => {
                                assert(d == d2);
                            },
                            None => {
                                assert(cidp == cid0 && d == comps[0].1);
                                lemma_write_untouched(cs1, rest, reg, tick, cid0);
                                let q = slot_index(cs1, cid0);
                                assert(slot_index(w, cid0) == q && w[q] == cs1[q] && cs1[q]
                                    == slot0);
                                lemma_slot_index(w, cid0);
                                assert(p == q);
                            },
                        }
                    },
                    None => {
                    },
                }
            }
        } else {
            lemma_write_last_values(cs, rest, reg, tick);
            assert(w == spec_write_components(cs, rest, reg, tick));
            assert forall|k: int|
                0 <= k < comps.len() && (#[trigger] comps[k]).0.0 < reg.len() implies slot_index(
                w,
                reg[comps[k].0.0 as int].component_id,
            ) >= 0 by {
                assert(k > 0);
                assert(rest[k - 1] == comps[k]);
                assert(slot_index(w, reg[rest[k - 1].0.0 as int].component_id) >= 0);
            }
            assert forall|p: int| 0 <= p < w.len() implies match last_write(
                comps,
                reg,
                (#[trigger] w[p]).component_id,
            ) {
                Some(d) => w[p] == (ComponentSlotView {
                    component_id: w[p].component_id,
                    data: d,
                    tick,
                }),
                None => true,
            } by {
                assert(last_write(comps, reg, w[p].component_id) == last_write(
                    rest,
                    reg,
                    w[p].component_id,
                ));
            }
        }
    }
}

/// Rewriting slots that already hold a write list's final values restores
/// the target `cs2`: positions the list never names agree already, and each
/// named position reaches the list's last value for its type.
proof fn lemma_write_converges(
    cs: Seq<ComponentSlotView>,
    cs2: Seq<ComponentSlotView>,
    comps: Seq<(FnsId, Seq<u8>)>,
    reg: Seq<FnsEntry>,
    tick: RepliconTick,
)
    requires
        cs.len() == cs2.len(),
        forall|p: int| 0 <= p < cs.len() ==> (#[trigger] cs[p]).component_id == cs2[p].component_id,
        unique_ids(cs),
        has_written_ids(cs, comps, reg),
        forall|p: int|
            0 <= p < cs.len() ==> match last_write(comps, reg, (#[trigger] cs[p]).component_id) {
                Some(d) => cs2[p] == (ComponentSlotView {
                    component_id: cs[p].component_id,
                    data: d,
                    tick,
                }),
                None => cs[p] == cs2[p],
            },
    ensures
        spec_write_components(cs, comps, reg, tick) == cs2,
    decreases comps.len(),
{
    if comps.len() == 0 {
        assert(cs =~= cs2);
    } else {
        let rest = comps.skip(1);
        assert(forall|k: int| 0 <= k < rest.len() ==> #[trigger] rest[k] == comps[k + 1]);
        if comps[0].0.0 < reg.len() {
            let cid0 = reg[comps[0].0.0 as int].component_id;
            let slot0 = ComponentSlotView { component_id: cid0, data: comps[0].1, tick };
            let p0 = slot_index(cs, cid0);
            lemma_slot_index(cs, cid0);
            assert(p0 >= 0);
            let cs1 = cs.update(p0, slot0);
            assert(spec_set_slot(cs, slot0) == cs1);
            assert forall|k: int|
                0 <= k < rest.len() && (#[trigger] rest[k]).0.0 < reg.len() implies slot_index(
                cs1,
                reg[rest[k].0.0 as int].component_id,
            ) >= 0 by {
                lemma_slot_index_same_ids(cs, cs1, reg[rest[k].0.0 as int].component_id);
            }
            assert forall|p: int| 0 <= p < cs1.len() implies match last_write(
                rest,
                reg,
                (#[trigger] cs1[p]).component_id,
            ) {
                Some(d) => cs2[p] == (ComponentSlotView {
                    component_id: cs1[p].component_id,
                    data: d,
                    tick,
                }),
                None => cs1[p] == cs2[p],
            } by {
                if p != p0 {
                    assert(cs[p].component_id != cid0);
                    assert(last_write(rest, reg, cs[p].component_id) == last_write(
                        comps,
                        reg,
                        cs[p].component_id,
                    ));
                } else {
                    match last_write(rest, reg, cid0) {
                        Some(d2) => {
                            assert(last_write(comps, reg, cid0) == Some(d2));
                        },
                        None => {
                            assert(last_write(comps, reg, cid0) == Some(comps[0].1));
                            assert(cs2[p0] == slot0);
                        },
                    }
                }
            }
            lemma_write_converges(cs1, cs2, rest, reg, tick);
        } else {
            assert forall|p: int| 0 <= p < cs.len() implies match last_write(
                rest,
                reg,
                (#[trigger] cs[p]).component_id,
            ) {
                Some(d) => cs2[p] == (ComponentSlotView {
                    component_id: cs[p].component_id,
                    data: d,
                    tick,
                }),
                None => cs[p] == cs2[p],
            } by {
                assert(last_write(rest, reg, cs[p].component_id) == last_write(
                    comps,
                    reg,
                    cs[p].component_id,
                ));
            }
            lemma_write_converges(cs, cs2, rest, reg, tick);
        }
    }
}

/// Writing a list right after itself is absorbed: the slots already hold its
/// final values.
proof fn lemma_write_components_idempotent(
    cs: Seq<ComponentSlotView>,
    comps: Seq<(FnsId, Seq<u8>)>,
    reg: Seq<FnsEntry>,
    tick: RepliconTick,
)
    requires
        unique_ids(cs),
    ensures
        spec_write_components(spec_write_components(cs, comps, reg, tick), comps, reg, tick)
            == spec_write_components(cs, comps, reg, tick),
{
    let w = spec_write_components(cs, comps, reg, tick);
    lemma_write_last_values(cs, comps, reg, tick);
    lemma_write_converges(w, w, comps, reg, tick);
}

/// Confirming a tick twice on a possibly fresh history is the same as once.
proof fn lemma_confirm_opt_idempotent(c: Option<Confirmed>, tick: RepliconTick)
    ensures
        spec_confirm_opt(Some(spec_confirm_opt(c, tick)), tick) == spec_confirm_opt(c, tick),
{
    match c {
        Some(h) => {
            lemma_confirm_idempotent(h, tick);
        },
        None => {
            let fresh = Confirmed { mask: 1u64, last_tick: tick };
            assert(1u64 | (1u64 << 0u64) == 1u64) by (bit_vector);
        },
    }
}

/// Applying a message twice is the same as once, for an update that carries
/// one CHANGES element with any list of component values. The second
/// application resolves to the same client entity, re-confirms the same
/// tick, and rewrites values the slots already hold: nothing moves.
pub proof fn lemma_single_change_idempotent(
    s: ApplyState,
    e: Entity,
    comps: Seq<(FnsId, Seq<u8>)>,
    reg: Seq<FnsEntry>,
    tick: RepliconTick,
)
    requires
        state_wf(s),
    ensures
        ({
            let m = UpdateMessageView {
                tick,
                mappings: Seq::empty(),
                despawns: Seq::empty(),
                removals: Seq::empty(),
                changes: seq![(e, comps)],
            };
            spec_apply_update(spec_apply_update(s, m, reg), m, reg) == spec_apply_update(s, m, reg)
        }),
{
    let m = UpdateMessageView {
        tick,
        mappings: Seq::empty(),
        despawns: Seq::empty(),
        removals: Seq::empty(),
        changes: seq![(e, comps)],
    };
    let s0 = ApplyState { update_tick: RepliconTick(tick_max(tick.0, s.update_tick.0)), ..s };
    assert(seq![(e, comps)].skip(1) =~= Seq::<(Entity, Seq<(FnsId, Seq<u8>)>)>::empty());
    assert(m.changes[0] == (e, comps));
    assert(m.changes.skip(1).len() == 0);
    let s1 = spec_apply_change(s0, (e, comps), reg, tick);
    assert(crate::applier::spec_apply_mappings(s0, m.mappings) == s0);
    assert(crate::applier::spec_apply_despawns(s0, m.despawns) == s0);
    assert(crate::applier::spec_apply_removals(s0, m.removals, reg, m.tick) == s0);
    assert(crate::applier::spec_apply_changes(s0, m.changes, reg, m.tick) == crate::applier::spec_apply_changes(
        s1,
        m.changes.skip(1),
        reg,
        m.tick,
    ));
    assert(spec_apply_update(s, m, reg) == s1);
    lemma_change_again(s0, e, comps, reg, tick);
    let s1b = ApplyState { update_tick: RepliconTick(tick_max(tick.0, s1.update_tick.0)), ..s1 };
    lemma_change_tick(s0, (e, comps), reg, tick);
    assert(s1.update_tick == s0.update_tick);
    assert(tick_max(tick.0, s1.update_tick.0) == s1.update_tick.0) by {
        assert(!tick_gt(tick.0, tick_max(tick.0, s.update_tick.0)));
    }
    assert(s1b == s1);
    let s2 = spec_apply_change(s1b, (e, comps), reg, tick);
    assert(crate::applier::spec_apply_mappings(s1b, m.mappings) == s1b);
    assert(crate::applier::spec_apply_despawns(s1b, m.despawns) == s1b);
    assert(crate::applier::spec_apply_removals(s1b, m.removals, reg, m.tick) == s1b);
    assert(crate::applier::spec_apply_changes(s1b, m.changes, reg, m.tick)
        == crate::applier::spec_apply_changes(s2, m.changes.skip(1), reg, m.tick));
    assert(spec_apply_update(s1, m, reg) == s2);
    assert(s2 == s1);
}

/// One CHANGES element never moves the seen-update tick.
proof fn lemma_change_tick(
    s: ApplyState,
    ch: (Entity, Seq<(FnsId, Seq<u8>)>),
    reg: Seq<FnsEntry>,
    tick: RepliconTick,
)
    ensures
        spec_apply_change(s, ch, reg, tick).update_tick == s.update_tick,
{
}

/// Applying the same CHANGES element right after itself is absorbed.
proof fn lemma_change_again(
    s: ApplyState,
    e: Entity,
    comps: Seq<(FnsId, Seq<u8>)>,
    reg: Seq<FnsEntry>,
    tick: RepliconTick,
)
    requires
        state_wf(s),
    ensures
        spec_apply_change(spec_apply_change(s, (e, comps), reg, tick), (e, comps), reg, tick)
            == spec_apply_change(s, (e, comps), reg, tick),
{
    let r = spec_resolve(s, e);
    let s1 = spec_apply_change(s, (e, comps), reg, tick);
    if !r.ok {
        assert(s1 == s);
    } else {
        let ent = r.state.world.entities[r.index];
        let ent2 = WorldEntityView {
            confirmed: Some(spec_confirm_opt(ent.confirmed, tick)),
            components: spec_write_components(ent.components, comps, reg, tick),
            ..ent
        };
        let es1 = r.state.world.entities.update(r.index, ent2);
        assert(s1.world.entities == es1);
        assert(s1.to_client == r.state.to_client);
        assert(s1.to_server == r.state.to_server);

        // The second resolution lands on the same index.
        let r2 = spec_resolve(s1, e);
        if s.to_client.contains_key(e.spec_bits()) {
            // Mapped case: the entity stays where it was.
            let ce = entity_of_bits(s.to_client[e.spec_bits()]);
            lemma_spec_find(s.world.entities, ce);
            assert(ent.id == ce);
            lemma_spec_find_update(s.world.entities, r.index, ent2, ce);
            assert(r2.ok && r2.index == r.index && r2.state == s1);
        } else {
            // Spawn case: the fresh pair now resolves to the pushed entity.
            let id = Entity { index: s.world.next_index, generation: 0 };
            crate::server_entity_map::lemma_entity_bits_inverse(id, 0);
            assert(s1.to_client.contains_key(e.spec_bits()));
            assert(s1.to_client[e.spec_bits()] == id.spec_bits());
            let pushed = s.world.entities.push(crate::world::spec_fresh_entity(s.world.next_index, true));
            assert(es1 == pushed.update(r.index, ent2));
            assert(ent2.id == id);
            assert(forall|a: int|
                0 <= a < s.world.entities.len() ==> (#[trigger] s.world.entities[a]).id.index
                    < s.world.next_index);
            assert(forall|a: int, b: int| 0 <= a < b < es1.len() ==> es1[a].id != es1[b].id) by {
                assert(forall|a: int|
                    0 <= a < s.world.entities.len() ==> #[trigger] es1[a] == s.world.entities[a]);
                assert(es1[es1.len() - 1] == ent2);
            }
            assert(es1[r.index].id == id);
            lemma_spec_find_unique(es1, r.index);
            assert(r2.ok && r2.index == r.index && r2.state == s1);
        }

        // Re-applying confirms the same tick and writes the same values.
        let entb = s1.world.entities[r.index];
        assert(entb == ent2);
        lemma_confirm_opt_idempotent(ent.confirmed, tick);
        assert(unique_ids(ent.components)) by {
            if s.to_client.contains_key(e.spec_bits()) {
                assert(entity_wf(s.world.entities[r.index]));
            } else {
                assert(ent == crate::world::spec_fresh_entity(s.world.next_index, true));
            }
        }
        lemma_write_components_idempotent(ent.components, comps, reg, tick);
        let ent3 = WorldEntityView {
            confirmed: Some(spec_confirm_opt(ent2.confirmed, tick)),
            components: spec_write_components(ent2.components, comps, reg, tick),
            ..ent2
        };
        assert(ent3.confirmed == ent2.confirmed);
        assert(ent3.components == ent2.components);
        assert(ent3 == ent2);
        let s2 = spec_apply_change(s1, (e, comps), reg, tick);
        assert(s2.world.entities =~= es1.update(r.index, ent3));
        assert(es1.update(r.index, ent3) =~= es1);
        assert(s2 == s1);
    }
}

} // verus!
