use vstd::prelude::*;

verus! {

use crate::shared_bytes::bytes_view;
use crate::tick::{RepliconTick, tick_gt};

/// A partially decoded mutate message waiting for the update message whose
/// tick it depends on: the required update tick, the data's own tick, how
/// many fragments the server produced for that tick, and the still-encoded
/// entity entries.
pub struct BufferedMutate {
    pub update_tick: RepliconTick,
    pub message_tick: RepliconTick,
    pub messages_count: u64,
    pub message: bytes::Bytes,
}

/// The mathematical shape of a buffered mutate message.
#[verifier::ext_equal]
pub ghost struct BufferedMutateView {
    pub update_tick: RepliconTick,
    pub message_tick: RepliconTick,
    pub messages_count: u64,
    pub payload: Seq<u8>,
}

impl View for BufferedMutate {
    type V = BufferedMutateView;

    open spec fn view(&self) -> BufferedMutateView {
        BufferedMutateView {
            update_tick: self.update_tick,
            message_tick: self.message_tick,
            messages_count: self.messages_count,
            payload: bytes_view(self.message),
        }
    }
}

/// The mathematical shape of the buffer.
pub open spec fn buffered_view(v: Seq<BufferedMutate>) -> Seq<BufferedMutateView> {
    v.map_values(|m: BufferedMutate| m@)
}

/// Where a message with tick `t` goes: after every buffered message whose
/// own tick is strictly newer, so draining walks newest ticks first.
pub open spec fn spec_insert_pos(s: Seq<BufferedMutateView>, t: u32) -> int
    decreases s.len(),
{
    if s.len() == 0 {
        0
    } else if tick_gt(s[0].message_tick.0, t) {
        1 + spec_insert_pos(s.skip(1), t)
    } else {
        0
    }
}

/// The insertion position is within the sequence.
pub proof fn lemma_spec_insert_pos(s: Seq<BufferedMutateView>, t: u32)
    ensures
        0 <= spec_insert_pos(s, t) <= s.len(),
    decreases s.len(),
{
    if s.len() > 0 && tick_gt(s[0].message_tick.0, t) {
        lemma_spec_insert_pos(s.skip(1), t);
    }
}

/// Mutate messages buffered until their update tick has been seen, kept with
/// newer message ticks first so that within one drain the newest value for
/// an entity lands first.
pub struct BufferedMutations(pub Vec<BufferedMutate>);

impl View for BufferedMutations {
    type V = Seq<BufferedMutateView>;

    open spec fn view(&self) -> Seq<BufferedMutateView> {
        buffered_view(self.0@)
    }
}

impl BufferedMutations {
    /// An empty buffer.
    pub fn new() -> (r: Self)
        ensures
            r@ == Seq::<BufferedMutateView>::empty(),
    {
        let r = BufferedMutations(Vec::new());
        proof {
            assert(r@ =~= Seq::<BufferedMutateView>::empty());
        }
        r
    }

    /// How many messages wait.
    pub fn len(&self) -> (r: usize)
        ensures
            r == self@.len(),
    {
        self.0.len()
    }

    /// Drops every buffered message.
    pub fn clear(&mut self)
        ensures
            final(self)@ == Seq::<BufferedMutateView>::empty(),
    {
        self.0.clear();
        proof {
            assert(self@ =~= Seq::<BufferedMutateView>::empty());
        }
    }

    /// Inserts a message, keeping message ticks ordered newest first.
    #[verifier::loop_isolation(false)]
    pub fn insert(&mut self, mutation: BufferedMutate)
        ensures
            final(self)@ == old(self)@.insert(spec_insert_pos(old(self)@, mutation@.message_tick.0), mutation@),
    {
        let ghost s = self@;
        let t = mutation.message_tick;
        proof {
            assert(s.skip(0) =~= s);
            lemma_spec_insert_pos(s, t.0);
        }
        let mut i: usize = 0;
        while i < self.0.len()
            invariant
                i <= s.len(),
                s == buffered_view(self.0@),
                s.len() == self.0@.len(),
                t == mutation.message_tick,
                spec_insert_pos(s, t.0) == (if spec_insert_pos(s.skip(i as int), t.0) == 0 {
                    i as int
                } else {
                    i + spec_insert_pos(s.skip(i as int), t.0)
                }),
                spec_insert_pos(s.skip(i as int), t.0) == 0 ==> spec_insert_pos(s, t.0) == i as int,
            decreases s.len() - i,
        {
            proof {
                assert(s.skip(i as int)[0] == s[i as int]);
                assert(s[i as int] == buffered_view(self.0@)[i as int]);
                assert(s.skip(i as int).skip(1) =~= s.skip(i as int + 1));
                lemma_spec_insert_pos(s.skip(i as int + 1), t.0);
            }
            let newer = self.0[i].message_tick.is_newer_than(t);
            if !newer {
                proof {
                    assert(!tick_gt(s[i as int].message_tick.0, t.0));
                    assert(spec_insert_pos(s.skip(i as int), t.0) == 0);
                    assert(spec_insert_pos(s, t.0) == i as int);
                }
                self.0.insert(i, mutation);
                proof {
                    assert(self@ =~~= s.insert(i as int, mutation@));
                }
                return ;
            }
            i = i + 1;
        }
        proof {
            assert(s.skip(s.len() as int).len() == 0);
        }
        self.0.push(mutation);
        proof {
            assert(self@ =~~= s.insert(s.len() as int, mutation@));
        }
    }
}

impl Default for BufferedMutations {
    /// An empty buffer.
    fn default() -> (r: Self)
        ensures
            r@ == Seq::<BufferedMutateView>::empty(),
    {
        Self::new()
    }
}

} // verus!
