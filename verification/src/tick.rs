use vstd::prelude::*;

verus! {

/// A server simulation tick: a 32-bit counter whose ordering is modular, so
/// that comparisons stay correct across wraparound within a 2^31-tick window.
#[derive(Clone, Copy, Debug, PartialEq, Eq, Structural, Hash, Default)]
pub struct RepliconTick(pub u32);

/// Modular distance from `b` up to `a` on the tick circle, in `0 .. 2^32`.
pub open spec fn tick_delta(a: u32, b: u32) -> int {
    if a >= b {
        a - b
    } else {
        a - b + 0x1_0000_0000
    }
}

/// `a` is strictly newer than `b`: the signed modular difference is positive.
pub open spec fn tick_gt(a: u32, b: u32) -> bool {
    0 < tick_delta(a, b) < 0x8000_0000
}

/// `a` is `b` or newer.
pub open spec fn tick_ge(a: u32, b: u32) -> bool {
    a == b || tick_gt(a, b)
}

/// The newer of two tick values under the modular order.
pub open spec fn tick_max(a: u32, b: u32) -> u32 {
    if tick_gt(a, b) {
        a
    } else {
        b
    }
}

impl RepliconTick {
    /// Returns the raw counter value.
    pub fn get(self) -> (r: u32)
        ensures
            r == self.0,
    {
        self.0
    }

    /// Strictly-newer comparison by signed modular difference.
    pub fn is_newer_than(self, other: RepliconTick) -> (r: bool)
        ensures
            r == tick_gt(self.0, other.0),
    {
        let d = self.0.wrapping_sub(other.0);
        d != 0 && d < 0x8000_0000
    }

    /// Modular distance from `other` up to `self`.
    pub fn distance_since(self, other: RepliconTick) -> (r: u32)
        ensures
            r == tick_delta(self.0, other.0),
    {
        self.0.wrapping_sub(other.0)
    }

    /// Advances by one, wrapping at the end of the counter range.
    pub fn increment(&mut self)
        ensures
            final(self).0 == vstd::wrapping::u32_specs::wrapping_add(old(self).0, 1),
    {
        self.0 = self.0.wrapping_add(1);
    }
}

} // verus!
