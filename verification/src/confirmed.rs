use vstd::prelude::*;

verus! {

use crate::tick::{RepliconTick, tick_delta, tick_gt};

/// Bit `i` of `mask`.
pub open spec fn mask_bit(mask: u64, i: u64) -> bool
    recommends
        i < 64,
{
    (mask >> i) & 1 == 1
}

/// Which recent server ticks are confirmed for one replicated entity: bit `i`
/// of `mask` is set when the tick `i` before `last_tick` was confirmed. Ticks
/// that fell out of the 64-bit window count as confirmed.
///
/// The fields are public so contracts can speak about them; they are meant to
/// be changed only through the methods below.
#[derive(Clone, Copy, Debug, PartialEq, Eq, Structural)]
pub struct Confirmed {
    pub mask: u64,
    pub last_tick: RepliconTick,
}

impl Confirmed {
    /// The history after advancing to a strictly newer `tick`: the mask
    /// shifts left by the distance (clearing entirely past the window) and
    /// the new latest tick is confirmed. Older ticks leave it unchanged.
    pub open spec fn spec_advance(self, tick: RepliconTick) -> Confirmed {
        if !tick_gt(tick.0, self.last_tick.0) {
            self
        } else {
            let d = tick_delta(tick.0, self.last_tick.0);
            Confirmed {
                mask: if d >= 64 {
                    1u64
                } else {
                    (self.mask << d as u64) | 1u64
                },
                last_tick: tick,
            }
        }
    }

    /// The history after confirming `tick`: newer ticks advance the window,
    /// ticks within the window set their bit, ticks past it change nothing.
    pub open spec fn spec_confirm(self, tick: RepliconTick) -> Confirmed {
        let a = self.spec_advance(tick);
        let ago = tick_delta(a.last_tick.0, tick.0);
        if ago < 64 {
            Confirmed { mask: a.mask | (1u64 << ago as u64), last_tick: a.last_tick }
        } else {
            a
        }
    }

    /// Whether `tick` reads back as confirmed.
    pub open spec fn spec_contains(self, tick: RepliconTick) -> bool {
        !tick_gt(tick.0, self.last_tick.0) && {
            let ago = tick_delta(self.last_tick.0, tick.0);
            ago >= 64 || mask_bit(self.mask, ago as u64)
        }
    }

    /// A fresh history whose only windowed confirmation is `last_tick`.
    pub fn new(last_tick: RepliconTick) -> (r: Self)
        ensures
            r == (Confirmed { mask: 1u64, last_tick }),
    {
        Self { mask: 1, last_tick }
    }

    /// The most recent confirmed tick.
    pub fn last_tick(&self) -> (r: RepliconTick)
        ensures
            r == self.last_tick,
    {
        self.last_tick
    }

    /// Returns `true` if this tick is confirmed for the entity.
    pub fn get(&self, tick: RepliconTick) -> (r: bool)
        ensures
            r == self.spec_contains(tick),
    {
        if tick.is_newer_than(self.last_tick) {
            return false;
        }
        let ago = self.last_tick.distance_since(tick);
        ago >= 64 || (self.mask >> (ago as u64)) & 1 == 1
    }

    /// Confirms `tick`, advancing the window when it is newer than anything
    /// seen. Returns whether it was newer.
    pub fn set(&mut self, tick: RepliconTick) -> (new: bool)
        ensures
            *final(self) == old(self).spec_confirm(tick),
            new == tick_gt(tick.0, old(self).last_tick.0),
    {
        let new = tick.is_newer_than(self.last_tick);
        if new {
            self.resize_to(tick);
        }
        let ago = self.last_tick.distance_since(tick);
        if ago < 64 {
            self.mask = self.mask | (1u64 << (ago as u64));
        }
        new
    }

    /// Advances the window to `tick` if it is newer than anything seen,
    /// confirming it; otherwise does nothing.
    pub fn set_last_tick(&mut self, tick: RepliconTick)
        ensures
            *final(self) == old(self).spec_advance(tick),
    {
        if tick.is_newer_than(self.last_tick) {
            self.resize_to(tick);
        }
    }

    /// Confirms the tick `ago` ticks before the latest one.
    pub fn set_ago(&mut self, ago: u32)
        requires
            ago < 64,
        ensures
            *final(self) == (Confirmed {
                mask: old(self).mask | (1u64 << ago as u64),
                last_tick: old(self).last_tick,
            }),
    {
        self.mask = self.mask | (1u64 << (ago as u64));
    }

    /// Shifts the window up to a strictly newer `tick`.
    fn resize_to(&mut self, tick: RepliconTick)
        requires
            tick_gt(tick.0, old(self).last_tick.0),
        ensures
            *final(self) == old(self).spec_advance(tick),
    {
        let diff = tick.distance_since(self.last_tick);
        if diff >= 64 {
            self.mask = 1;
        } else {
            self.mask = (self.mask << (diff as u64)) | 1;
        }
        self.last_tick = tick;
    }
}

/// Confirming a tick makes it read back as confirmed.
pub proof fn lemma_confirm_contains(c: Confirmed, tick: RepliconTick)
    ensures
        c.spec_confirm(tick).spec_contains(tick),
{
    let a = c.spec_advance(tick);
    let ago = tick_delta(a.last_tick.0, tick.0);
    if tick_gt(tick.0, c.last_tick.0) {
        assert(a.last_tick == tick);
        assert(ago == 0);
    }
    if ago < 64 {
        let agob = ago as u64;
        let m = a.mask;
        assert(((m | (1u64 << agob)) >> agob) & 1 == 1) by (bit_vector)
            requires
                agob < 64,
        ;
    }
}

/// Confirming the same tick twice changes nothing more than once.
pub proof fn lemma_confirm_idempotent(c: Confirmed, tick: RepliconTick)
    ensures
        c.spec_confirm(tick).spec_confirm(tick) == c.spec_confirm(tick),
{
    let once = c.spec_confirm(tick);
    let a = c.spec_advance(tick);
    let ago = tick_delta(a.last_tick.0, tick.0);
    if tick_gt(tick.0, c.last_tick.0) {
        assert(a.last_tick == tick);
        assert(ago == 0);
    }
    assert(!tick_gt(tick.0, once.last_tick.0));
    if ago < 64 {
        let agob = ago as u64;
        let m = a.mask;
        assert((m | (1u64 << agob)) | (1u64 << agob) == m | (1u64 << agob)) by (bit_vector);
    }
}

} // verus!
