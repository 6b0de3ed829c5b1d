use vstd::prelude::*;

verus! {

use crate::messages::{
    MutateHeader, MutationEntry, mutation_entry_bytes, mutate_message_bytes, mutations_view,
    serialize_mutate_message,
};
use crate::tick::RepliconTick;

/// How many bytes one entity entry occupies on the wire.
pub open spec fn entry_size(m: (Entity, Seq<u8>)) -> int {
    mutation_entry_bytes(m).len() as int
}

use crate::entity::Entity;

/// The total wire size of a list of entity entries.
pub open spec fn entries_size(ms: Seq<(Entity, Seq<u8>)>) -> int
    decreases ms.len(),
{
    if ms.len() == 0 {
        0
    } else {
        entry_size(ms[0]) + entries_size(ms.skip(1))
    }
}

/// The chunks' entries, one list after another.
pub open spec fn chunks_concat(chunks: Seq<Seq<(Entity, Seq<u8>)>>) -> Seq<(Entity, Seq<u8>)>
    decreases chunks.len(),
{
    if chunks.len() == 0 {
        Seq::empty()
    } else {
        chunks[0] + chunks_concat(chunks.skip(1))
    }
}

/// A fragmentation of mutation entries honoring `mtu`: every chunk is
/// nonempty, a chunk exceeds `mtu` only when it holds a single oversized
/// entry, and taken together the chunks are exactly the input.
pub open spec fn chunks_wf(
    chunks: Seq<Seq<(Entity, Seq<u8>)>>,
    entries: Seq<(Entity, Seq<u8>)>,
    mtu: int,
) -> bool {
    &&& chunks_concat(chunks) == entries
    &&& forall|k: int| 0 <= k < chunks.len() ==> (#[trigger] chunks[k]).len() > 0
    &&& forall|k: int|
        0 <= k < chunks.len() ==> entries_size(#[trigger] chunks[k]) <= mtu || chunks[k].len() == 1
}

/// The mathematical shape of a chunk list.
pub open spec fn chunk_views(v: Seq<Vec<MutationEntry>>) -> Seq<Seq<(Entity, Seq<u8>)>> {
    v.map_values(|c: Vec<MutationEntry>| mutations_view(c@))
}

/// The wire size of one encoded entry.
fn measure_entry(entry: &MutationEntry) -> (r: usize)
    requires
        entry@.1.len() + 32 <= usize::MAX,
    ensures
        r == entry_size(entry@),
{
    let mut buf: Vec<u8> = Vec::new();
    crate::entity_serde::serialize_entity(&mut buf, entry.entity);
    crate::codec::write_varint(&mut buf, entry.data.len() as u64);
    proof {
        crate::codec::lemma_leb_bytes_len(crate::entity_serde::flagged_index_of(entry.entity));
        crate::codec::lemma_leb_bytes_len(entry.entity.generation as u64);
        crate::codec::lemma_leb_bytes_len(entry@.1.len() as u64);
        assert(buf@.len() <= 30);
    }
    buf.len() + entry.data.len()
}

/// Splits mutation entries into message-sized chunks: entries fill a chunk
/// until the next one would push it past `mtu`; an entry too large for any
/// chunk travels alone. This mirrors how a tick's mutations are fragmented
/// into several mutate messages.
pub fn split_mutations(entries: Vec<MutationEntry>, mtu: usize) -> (r: Vec<Vec<MutationEntry>>)
    requires
        forall|k: int|
            0 <= k < entries@.len() ==> (#[trigger] entries@[k])@.1.len() + 32 <= usize::MAX,
        entries_size(mutations_view(entries@)) <= usize::MAX,
    ensures
        chunks_wf(chunk_views(r@), mutations_view(entries@), mtu as int),
{
    let ghost evs = mutations_view(entries@);
    let mut chunks: Vec<Vec<MutationEntry>> = Vec::new();
    let mut current: Vec<MutationEntry> = Vec::new();
    let mut current_size: usize = 0;
    let n = entries.len();
    let mut entries = entries;
    proof {
        assert(evs.skip(0) =~= evs);
        assert(chunks_concat(chunk_views(chunks@)) =~= Seq::<(Entity, Seq<u8>)>::empty());
        assert(mutations_view(current@) =~= Seq::<(Entity, Seq<u8>)>::empty());
        lemma_entries_size_bounds(evs);
        assert(evs.take(0) =~= Seq::<(Entity, Seq<u8>)>::empty());
    }
    let mut i: usize = 0;
    while i < n
        invariant
            i <= n,
            n == evs.len(),
            entries@.len() == n - i,
            mutations_view(entries@) == evs.skip(i as int),
            forall|k: int|
                0 <= k < entries@.len() ==> (#[trigger] entries@[k])@.1.len() + 32 <= usize::MAX,
            entries_size(evs) <= usize::MAX,
            current_size == entries_size(mutations_view(current@)),
            current_size <= entries_size(evs.take(i as int)),
            entries_size(evs.take(i as int)) <= entries_size(evs),
            mutations_view(current@).len() == 0 ==> current_size == 0,
            current_size <= mtu || mutations_view(current@).len() == 1,
            chunks_concat(chunk_views(chunks@)) + mutations_view(current@) == evs.take(i as int),
            forall|k: int|
                0 <= k < chunks@.len() ==> (#[trigger] chunk_views(chunks@)[k]).len() > 0,
            forall|k: int|
                0 <= k < chunks@.len() ==> entries_size(#[trigger] chunk_views(chunks@)[k])
                    <= mtu as int || chunk_views(chunks@)[k].len() == 1,
        decreases n - i,
    {
        proof {
            lemma_entries_size_bounds(evs.take(i as int));
            lemma_entries_size_bounds(evs.skip(i as int + 1));
            lemma_entries_size_split(evs, i as int + 1);
            assert(evs.take(i as int + 1) =~= evs.take(i as int).push(evs[i as int]));
            lemma_entries_size_push(evs.take(i as int), evs[i as int]);
            assert(mutations_view(entries@)[0] == evs.skip(i as int)[0]);
            assert(entries@[0]@ == evs[i as int]);
        }
        let entry = entries.remove(0);
        proof {
            assert(mutations_view(entries@) =~= evs.skip(i as int).skip(1));
            assert(evs.skip(i as int).skip(1) =~= evs.skip(i as int + 1));
        }
        let size = measure_entry(&entry);
        if current.len() > 0 && current_size + size > mtu {
            let ghost old_chunks = chunks@;
            let ghost old_current = current@;
            let mut done: Vec<MutationEntry> = Vec::new();
            core::mem::swap(&mut done, &mut current);
            chunks.push(done);
            current_size = 0;
            proof {
                assert(chunk_views(chunks@) =~= chunk_views(old_chunks).push(
                    mutations_view(old_current),
                ));
                lemma_chunks_concat_push(chunk_views(old_chunks), mutations_view(old_current));
                assert(mutations_view(current@) =~= Seq::<(Entity, Seq<u8>)>::empty());
            }
        }
        let ghost cur_before = mutations_view(current@);
        current.push(entry);
        current_size = current_size + size;
        proof {
            assert(mutations_view(current@) =~= cur_before.push(evs[i as int]));
            lemma_entries_size_push(cur_before, evs[i as int]);
            assert(chunks_concat(chunk_views(chunks@)) + mutations_view(current@) =~= evs.take(
                i as int + 1,
            ));
        }
        i = i + 1;
    }
    if current.len() > 0 {
        let ghost old_chunks = chunks@;
        let ghost old_current = current@;
        chunks.push(current);
        proof {
            assert(chunk_views(chunks@) =~= chunk_views(old_chunks).push(
                mutations_view(old_current),
            ));
            lemma_chunks_concat_push(chunk_views(old_chunks), mutations_view(old_current));
        }
    }
    proof {
        assert(evs.take(evs.len() as int) =~= evs);
        assert(chunks_concat(chunk_views(chunks@)) =~= evs);
    }
    chunks
}

/// Entry sizes are nonnegative, so prefixes never outweigh the whole.
proof fn lemma_entries_size_bounds(ms: Seq<(Entity, Seq<u8>)>)
    ensures
        entries_size(ms) >= 0,
    decreases ms.len(),
{
    if ms.len() > 0 {
        lemma_entries_size_bounds(ms.skip(1));
    }
}

/// One more entry adds exactly its size.
proof fn lemma_entries_size_push(ms: Seq<(Entity, Seq<u8>)>, m: (Entity, Seq<u8>))
    ensures
        entries_size(ms.push(m)) == entries_size(ms) + entry_size(m),
    decreases ms.len(),
{
    let p = ms.push(m);
    if ms.len() == 0 {
        assert(p[0] == m);
        assert(p.skip(1) =~= Seq::<(Entity, Seq<u8>)>::empty());
        assert(entries_size(p.skip(1)) == 0);
        assert(entries_size(p) == entry_size(m));
    } else {
        assert(p[0] == ms[0]);
        assert(p.skip(1) =~= ms.skip(1).push(m));
        lemma_entries_size_push(ms.skip(1), m);
        assert(entries_size(p) == entry_size(ms[0]) + entries_size(p.skip(1)));
    }
}

/// A list's size splits across any cut point.
proof fn lemma_entries_size_split(ms: Seq<(Entity, Seq<u8>)>, i: int)
    requires
        0 <= i <= ms.len(),
    ensures
        entries_size(ms.take(i)) + entries_size(ms.skip(i)) == entries_size(ms),
    decreases i,
{
    if i == 0 {
        assert(ms.take(0) =~= Seq::<(Entity, Seq<u8>)>::empty());
        assert(ms.skip(0) =~= ms);
    } else {
        assert(ms.take(i)[0] == ms[0]);
        assert(ms.take(i).skip(1) =~= ms.skip(1).take(i - 1));
        assert(ms.skip(i) =~= ms.skip(1).skip(i - 1));
        lemma_entries_size_split(ms.skip(1), i - 1);
        assert(entries_size(ms.take(i)) == entry_size(ms[0]) + entries_size(ms.skip(1).take(i - 1)));
        assert(entries_size(ms) == entry_size(ms[0]) + entries_size(ms.skip(1)));
    }
}

/// Appending a chunk appends its entries.
proof fn lemma_chunks_concat_push(chunks: Seq<Seq<(Entity, Seq<u8>)>>, c: Seq<(Entity, Seq<u8>)>)
    ensures
        chunks_concat(chunks.push(c)) == chunks_concat(chunks) + c,
    decreases chunks.len(),
{
    let p = chunks.push(c);
    if chunks.len() == 0 {
        assert(p[0] == c);
        assert(p.skip(1) =~= Seq::<Seq<(Entity, Seq<u8>)>>::empty());
        assert(chunks_concat(p.skip(1)).len() == 0);
        assert(chunks_concat(chunks).len() == 0);
        assert(chunks_concat(p) =~= chunks_concat(chunks) + c);
    } else {
        assert(p[0] == chunks[0]);
        assert(p.skip(1) =~= chunks.skip(1).push(c));
        lemma_chunks_concat_push(chunks.skip(1), c);
        assert(chunks_concat(p) =~= chunks_concat(chunks) + c);
    }
}

/// Nonempty chunks are never more numerous than their entries.
proof fn lemma_chunks_count(chunks: Seq<Seq<(Entity, Seq<u8>)>>)
    requires
        forall|k: int| 0 <= k < chunks.len() ==> (#[trigger] chunks[k]).len() > 0,
    ensures
        chunks_concat(chunks).len() >= chunks.len(),
    decreases chunks.len(),
{
    if chunks.len() > 0 {
        assert(forall|k: int|
            0 <= k < chunks.skip(1).len() ==> (#[trigger] chunks.skip(1)[k]).len() > 0) by {
            assert(forall|k: int|
                0 <= k < chunks.skip(1).len() ==> chunks.skip(1)[k] == chunks[k + 1]);
        }
        lemma_chunks_count(chunks.skip(1));
    }
}

/// One built mutate message: some nonempty chunk of entries encoded under
/// the given header fields, with the message's own fragment index.
pub open spec fn is_fragment(
    msg: (u16, Vec<u8>),
    update_tick: RepliconTick,
    message_tick: RepliconTick,
    count: u64,
    track: bool,
) -> bool {
    exists|c: Seq<(Entity, Seq<u8>)>|
        c.len() > 0 && msg.1@ == #[trigger] mutate_message_bytes(
            MutateHeader { update_tick, message_tick, messages_count: count, mutate_index: msg.0 },
            c,
            track,
        )
}

/// Fragment `k` of `r` encodes chunk `k` of `chunks`, under a header carrying
/// the given ticks, the total fragment count and the fragment's own index.
pub open spec fn fragments_encode(
    r: Seq<(u16, Vec<u8>)>,
    chunks: Seq<Seq<(Entity, Seq<u8>)>>,
    update_tick: RepliconTick,
    message_tick: RepliconTick,
    track: bool,
) -> bool {
    &&& chunks.len() == r.len()
    &&& forall|k: int|
        0 <= k < r.len() ==> (#[trigger] r[k]).1@ == mutate_message_bytes(
            MutateHeader {
                update_tick,
                message_tick,
                messages_count: r.len() as u64,
                mutate_index: k as u16,
            },
            chunks[k],
            track,
        )
}

/// Builds the mutate messages for one tick: the entries fragment along
/// `mtu`, and every fragment carries the same update tick, the same message
/// tick and the total fragment count, with its own index for acknowledgment.
/// Taken together the fragments encode exactly the input entries, in order.
/// The fragment index is sixteen bits wide, which bounds how many entries
/// one tick can carry.
pub fn build_mutate_messages(
    update_tick: RepliconTick,
    message_tick: RepliconTick,
    entries: Vec<MutationEntry>,
    mtu: usize,
    track: bool,
) -> (r: Vec<(u16, Vec<u8>)>)
    requires
        forall|k: int|
            0 <= k < entries@.len() ==> (#[trigger] entries@[k])@.1.len() + 32 <= usize::MAX,
        entries_size(mutations_view(entries@)) <= usize::MAX,
        0 < mutations_view(entries@).len() <= 0x1_0000,
    ensures
        1 <= r@.len() <= 0x1_0000,
        forall|k: int|
            0 <= k < r@.len() ==> is_fragment(
                #[trigger] r@[k],
                update_tick,
                message_tick,
                r@.len() as u64,
                track,
            ),
        forall|k: int| 0 <= k < r@.len() ==> (#[trigger] r@[k]).0 == k,
        exists|chunks: Seq<Seq<(Entity, Seq<u8>)>>|
            #[trigger] chunks_wf(chunks, mutations_view(entries@), mtu as int)
                && fragments_encode(r@, chunks, update_tick, message_tick, track),
{
    let ghost evs = mutations_view(entries@);
    let chunks = split_mutations(entries, mtu);
    proof {
        lemma_chunks_count(chunk_views(chunks@));
        assert(chunks@.len() >= 1) by {
            if chunks@.len() == 0 {
                assert(chunks_concat(chunk_views(chunks@)).len() == 0);
            }
        }
    }
    let mut out: Vec<(u16, Vec<u8>)> = Vec::new();
    let count = chunks.len();
    let mut i: usize = 0;
    while i < count
        invariant
            out@.len() == i,
            i <= count,
            chunks@.len() == count,
            1 <= count <= 0x1_0000,
            forall|k: int|
                0 <= k < chunks@.len() ==> (#[trigger] chunk_views(chunks@)[k]).len() > 0,
            forall|k: int|
                0 <= k < i ==> is_fragment(
                    #[trigger] out@[k],
                    update_tick,
                    message_tick,
                    count as u64,
                    track,
                ),
            forall|k: int| 0 <= k < i ==> (#[trigger] out@[k]).0 == k,
            forall|k: int|
                0 <= k < i ==> (#[trigger] out@[k]).1@ == mutate_message_bytes(
                    (MutateHeader {
                        update_tick,
                        message_tick,
                        messages_count: count as u64,
                        mutate_index: k as u16,
                    }),
                    chunk_views(chunks@)[k],
                    track,
                ),
        decreases count - i,
    {
        let header = MutateHeader {
            update_tick,
            message_tick,
            messages_count: count as u64,
            mutate_index: i as u16,
        };
        let bytes = serialize_mutate_message(&header, &chunks[i], track);
        let ghost cv = mutations_view(chunks@[i as int]@);
        out.push((i as u16, bytes));
        proof {
            assert(out@.last().1@ == mutate_message_bytes(
                MutateHeader {
                    update_tick,
                    message_tick,
                    messages_count: count as u64,
                    mutate_index: i as u16,
                },
                cv,
                track,
            ));
            assert(cv == chunk_views(chunks@)[i as int]);
            assert(cv.len() > 0);
            assert(out@.last().0 == i as u16);
            assert(out@.last().1@ == mutate_message_bytes(
                MutateHeader {
                    update_tick,
                    message_tick,
                    messages_count: count as u64,
                    mutate_index: out@.last().0,
                },
                cv,
                track,
            ));
            assert(is_fragment(out@.last(), update_tick, message_tick, count as u64, track));
        }
        i = i + 1;
    }
    proof {
        assert(fragments_encode(out@, chunk_views(chunks@), update_tick, message_tick, track));
        assert(chunks_wf(chunk_views(chunks@), evs, mtu as int));
    }
    out
}

} // verus!
