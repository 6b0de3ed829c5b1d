use vstd::prelude::*;

verus! {

broadcast use vstd::std_specs::hash::group_hash_axioms;

use std::collections::HashMap;
use crate::codec::{read_u16_le, u16_le_parse};
use crate::tick::{RepliconTick, tick_max};

/// The tally after one received fragment of `tick` out of `count` is
/// recorded, and whether that completed the tick: the received counter rises
/// by one (saturating), the expected count is overwritten, and the tick is
/// complete once received meets expected.
pub open spec fn spec_confirm(m: Map<u32, (u64, u64)>, tick: RepliconTick, count: u64) -> (
    Map<u32, (u64, u64)>,
    bool,
) {
    let received = if m.contains_key(tick.0) {
        m[tick.0].0
    } else {
        0u64
    };
    let new_received = if received < u64::MAX {
        (received + 1) as u64
    } else {
        received
    };
    (m.insert(tick.0, (new_received, count)), new_received >= count)
}

/// Client-side tally of mutate-message fragments per server tick: once every
/// fragment of a tick has arrived, the tick counts as fully received.
pub struct ServerMutateTicks {
    /// Received and expected fragment counts, keyed by the tick's raw value.
    pub ticks: HashMap<u32, (u64, u64)>,
}

impl ServerMutateTicks {
    pub fn new() -> (r: Self)
        ensures
            r.ticks@ == Map::<u32, (u64, u64)>::empty(),
    {
        Self { ticks: HashMap::new() }
    }

    /// Records one received fragment of `tick` out of `messages_count`, and
    /// returns whether that completed the tick.
    pub fn confirm(&mut self, tick: RepliconTick, messages_count: u64) -> (r: bool)
        ensures
            ({
                let (m2, done) = spec_confirm(old(self).ticks@, tick, messages_count);
                final(self).ticks@ == m2 && r == done
            }),
    {
        let received: u64 = match self.ticks.get(&tick.0) {
            Some(entry) => entry.0,
            None => 0,
        };
        let new_received: u64 = if received < u64::MAX {
            received + 1
        } else {
            received
        };
        self.ticks.insert(tick.0, (new_received, messages_count));
        new_received >= messages_count
    }

    /// Forgets every tally.
    pub fn clear(&mut self)
        ensures
            final(self).ticks@ == Map::<u32, (u64, u64)>::empty(),
    {
        self.ticks.clear();
    }
}

impl Default for ServerMutateTicks {
    fn default() -> (r: Self)
        ensures
            r.ticks@ == Map::<u32, (u64, u64)>::empty(),
    {
        Self::new()
    }
}

/// Server-side consolidation of per-message mutate acknowledgments into a
/// per-tick acknowledgment: each outstanding mutate index maps to its tick,
/// and each tick counts its outstanding indices. When a tick's count reaches
/// zero the client's acknowledged update tick advances to it, so a
/// mutate-only tick needs no extra update message.
pub struct MutateTickTracker {
    /// The tick each outstanding mutate index belongs to.
    pub index_ticks: HashMap<u16, RepliconTick>,
    /// How many indices are outstanding per tick's raw value.
    pub pending: HashMap<u32, u64>,
    /// Highest update tick the client has fully acknowledged.
    pub acked_update_tick: RepliconTick,
}

/// The mathematical shape of the tracker.
#[verifier::ext_equal]
pub ghost struct TrackerState {
    pub index_ticks: Map<u16, RepliconTick>,
    pub pending: Map<u32, u64>,
    pub acked_update_tick: RepliconTick,
}

impl View for MutateTickTracker {
    type V = TrackerState;

    open spec fn view(&self) -> TrackerState {
        TrackerState {
            index_ticks: self.index_ticks@,
            pending: self.pending@,
            acked_update_tick: self.acked_update_tick,
        }
    }
}

/// The tracker after one acknowledged mutate index is taken in, and the tick
/// it completed, if any: the index leaves the outstanding set; when it was
/// its tick's last outstanding index, the tick's counter leaves too, the
/// acknowledged update tick advances to that tick if newer, and the tick is
/// reported; an index that is not outstanding changes nothing.
pub open spec fn spec_acknowledge(s: TrackerState, index: u16) -> (TrackerState, Option<
    RepliconTick,
>) {
    if !s.index_ticks.contains_key(index) {
        (s, None)
    } else {
        let tick = s.index_ticks[index];
        let count = if s.pending.contains_key(tick.0) {
            s.pending[tick.0]
        } else {
            0u64
        };
        if count <= 1 {
            (
                TrackerState {
                    index_ticks: s.index_ticks.remove(index),
                    pending: s.pending.remove(tick.0),
                    acked_update_tick: RepliconTick(tick_max(tick.0, s.acked_update_tick.0)),
                },
                Some(tick),
            )
        } else {
            (
                TrackerState {
                    index_ticks: s.index_ticks.remove(index),
                    pending: s.pending.insert(tick.0, (count - 1) as u64),
                    acked_update_tick: s.acked_update_tick,
                },
                None,
            )
        }
    }
}

/// The tracker after an acknowledgment packet is taken in, and the ticks its
/// indices completed, in order: the packet is a run of two-byte mutate
/// indices, least significant byte first, each folded in through
/// `spec_acknowledge`; a trailing odd byte is ignored.
pub open spec fn spec_process_acks(s: TrackerState, data: Seq<u8>) -> (TrackerState, Seq<
    RepliconTick,
>)
    decreases data.len(),
{
    if data.len() < 2 {
        (s, Seq::empty())
    } else {
        let (s1, done) = spec_acknowledge(s, u16_le_parse(data, 0));
        let (s2, rest) = spec_process_acks(s1, data.skip(2));
        (
            s2,
            match done {
                Some(t) => seq![t] + rest,
                None => rest,
            },
        )
    }
}

impl MutateTickTracker {
    pub fn new() -> (r: Self)
        ensures
            r.index_ticks@ == Map::<u16, RepliconTick>::empty(),
            r.pending@ == Map::<u32, u64>::empty(),
            r.acked_update_tick == RepliconTick(0),
    {
        Self {
            index_ticks: HashMap::new(),
            pending: HashMap::new(),
            acked_update_tick: RepliconTick(0),
        }
    }

    /// Records that a mutate message with `index` went out for `tick`. The
    /// index must not already be outstanding: the server assigns fresh ones.
    pub fn register(&mut self, index: u16, tick: RepliconTick)
        requires
            !old(self).index_ticks@.contains_key(index),
        ensures
            final(self).index_ticks@ == old(self).index_ticks@.insert(index, tick),
            ({
                let count = if old(self).pending@.contains_key(tick.0) {
                    old(self).pending@[tick.0]
                } else {
                    0u64
                };
                final(self).pending@ == old(self).pending@.insert(
                    tick.0,
                    if count < u64::MAX {
                        (count + 1) as u64
                    } else {
                        count
                    },
                )
            }),
            final(self).acked_update_tick == old(self).acked_update_tick,
    {
        self.index_ticks.insert(index, tick);
        let count: u64 = match self.pending.get(&tick.0) {
            Some(c) => *c,
            None => 0,
        };
        let new_count: u64 = if count < u64::MAX {
            count + 1
        } else {
            count
        };
        self.pending.insert(tick.0, new_count);
    }

    /// Takes one acknowledged mutate index. When it was the tick's last
    /// outstanding one, the acknowledged update tick advances to that tick if
    /// newer, and the tick is returned as fully acknowledged. An index that
    /// is not outstanding (a duplicate ack) changes nothing.
    pub fn acknowledge(&mut self, index: u16) -> (r: Option<RepliconTick>)
        ensures
            ({
                let (s2, done) = spec_acknowledge(old(self)@, index);
                final(self)@ == s2 && r == done
            }),
    {
        let tick = match self.index_ticks.remove(&index) {
            Some(t) => t,
            None => {
                proof {
                    assert(self.index_ticks@ =~= old(self).index_ticks@);
                    assert(self@ =~= old(self)@);
                }
                return None;
            },
        };
        let count: u64 = match self.pending.get(&tick.0) {
            Some(c) => *c,
            None => 0,
        };
        if count <= 1 {
            self.pending.remove(&tick.0);
            if tick.is_newer_than(self.acked_update_tick) {
                self.acked_update_tick = tick;
            }
            Some(tick)
        } else {
            self.pending.insert(tick.0, count - 1);
            None
        }
    }

    /// Decodes a received acknowledgment packet: a run of two-byte mutate
    /// indices, least significant byte first, each folded in through
    /// `acknowledge`. Returns the ticks that became fully acknowledged, in
    /// order. A trailing odd byte is ignored, as the client never produces
    /// one.
    pub fn process_acks(&mut self, data: &[u8]) -> (r: Vec<RepliconTick>)
        ensures
            ({
                let (s2, done) = spec_process_acks(old(self)@, data@);
                final(self)@ == s2 && r@ == done
            }),
    {
        let ghost whole = spec_process_acks(old(self)@, data@);
        let mut out: Vec<RepliconTick> = Vec::new();
        let mut pos: usize = 0;
        proof {
            assert(data@.skip(0) =~= data@);
        }
        while data.len() - pos >= 2
            invariant
                pos <= data@.len(),
                whole == spec_process_acks(old(self)@, data@),
                ({
                    let (sr, er) = spec_process_acks(self@, data@.skip(pos as int));
                    whole.0 == sr && whole.1 == out@ + er
                }),
            decreases data@.len() - pos,
        {
            let ghost rest = data@.skip(pos as int);
            proof {
                assert(rest[0] == data@[pos as int]);
                assert(rest[1] == data@[pos as int + 1]);
                assert(u16_le_parse(rest, 0) == u16_le_parse(data@, pos as int));
                assert(rest.skip(2) =~= data@.skip(pos as int + 2));
            }
            let (idx, p2) = match read_u16_le(data, pos) {
                Ok(v) => v,
                Err(_) => {
                    return out;
                },
            };
            let ghost out_before = out@;
            match self.acknowledge(idx) {
                Some(tick) => {
                    out.push(tick);
                    proof {
                        assert(out_before + (seq![tick] + spec_process_acks(
                            self@,
                            rest.skip(2),
                        ).1) =~= out@ + spec_process_acks(self@, rest.skip(2)).1);
                    }
                },
                None => {
                },
            }
            pos = p2;
        }
        proof {
            assert(spec_process_acks(self@, data@.skip(pos as int)).1 =~= Seq::<
                RepliconTick,
            >::empty());
            assert(out@ + Seq::<RepliconTick>::empty() =~= out@);
        }
        out
    }
}

impl Default for MutateTickTracker {
    fn default() -> (r: Self)
        ensures
            r.index_ticks@ == Map::<u16, RepliconTick>::empty(),
            r.pending@ == Map::<u32, u64>::empty(),
            r.acked_update_tick == RepliconTick(0),
    {
        Self::new()
    }
}

} // verus!
