use vstd::prelude::*;

verus! {

/// A reusable byte buffer for serialized replication data. Within one tick a
/// component value is serialized once and shared by every client receiving
/// it: `get_or_write` hands back the range of the last write until
/// `end_write` closes it.
pub struct ReplicationBuffer {
    /// Serialized data; `position` marks the end of what is in use.
    data: Vec<u8>,
    position: usize,
    /// Range of the last written data, while a write is shareable.
    last_write: Option<(usize, usize)>,
}

impl ReplicationBuffer {
    /// The bytes currently in use.
    pub closed spec fn spec_data(self) -> Seq<u8> {
        self.data@.take(self.position as int)
    }

    /// The shareable range of the last write, if one is open.
    pub closed spec fn spec_last_write(self) -> Option<(usize, usize)> {
        self.last_write
    }

    /// Ranges handed out are within the buffer, and the used prefix fits.
    pub closed spec fn wf(self) -> bool {
        &&& self.position <= self.data@.len()
        &&& match self.last_write {
            Some((b, e)) => b <= e <= self.position,
            None => true,
        }
    }

    /// An empty buffer.
    pub fn new() -> (r: Self)
        ensures
            r.wf(),
            r.spec_data().len() == 0,
            r.spec_last_write() is None,
    {
        let r = Self { data: Vec::new(), position: 0, last_write: None };
        proof {
            assert(r.spec_data() =~= Seq::<u8>::empty());
        }
        r
    }

    /// Clears the buffer. Keeps allocated capacity for reuse.
    pub fn clear(&mut self)
        ensures
            final(self).wf(),
            final(self).spec_data().len() == 0,
            final(self).spec_last_write() is None,
    {
        self.position = 0;
        self.last_write = None;
        proof {
            assert(self.spec_data() =~= Seq::<u8>::empty());
        }
    }

    /// The bytes of the given ranges, one after another: what one client's
    /// message carries out of the shared buffer.
    #[verifier::loop_isolation(false)]
    pub fn iter_ranges(&self, ranges: &Vec<(usize, usize)>) -> (r: Vec<u8>)
        requires
            self.wf(),
            forall|k: int|
                0 <= k < ranges@.len() ==> (#[trigger] ranges@[k]).0 <= ranges@[k].1 && ranges@[k].1
                    <= self.spec_data().len(),
        ensures
            r@ == spec_ranges_bytes(self.spec_data(), ranges@),
    {
        let ghost rv = ranges@;
        let mut out: Vec<u8> = Vec::new();
        proof {
            assert(rv.skip(0) =~= rv);
        }
        let mut i: usize = 0;
        while i < ranges.len()
            invariant
                i <= rv.len(),
                rv == ranges@,
                self.wf(),
                forall|k: int|
                    0 <= k < rv.len() ==> (#[trigger] rv[k]).0 <= rv[k].1 && rv[k].1
                        <= self.spec_data().len(),
                spec_ranges_bytes(self.spec_data(), rv) == out@ + spec_ranges_bytes(
                    self.spec_data(),
                    rv.skip(i as int),
                ),
            decreases rv.len() - i,
        {
            proof {
                assert(rv.skip(i as int)[0] == rv[i as int]);
                assert(rv.skip(i as int).skip(1) =~= rv.skip(i as int + 1));
            }
            let (b, e) = ranges[i];
            let ghost out_before = out@;
            let mut j = b;
            while j < e
                invariant
                    rv[i as int].0 <= j <= rv[i as int].1,
                    (b, e) == rv[i as int],
                    e <= self.position <= self.data@.len(),
                    self.wf(),
                    out@ == out_before + self.spec_data().subrange(b as int, j as int),
                decreases e - j,
            {
                let byte = self.data[j];
                out.push(byte);
                proof {
                    assert(out_before + self.spec_data().subrange(b as int, j as int) + seq![
                        self.spec_data()[j as int],
                    ] =~= out_before + self.spec_data().subrange(b as int, j as int + 1));
                }
                j = j + 1;
            }
            proof {
                assert(out_before + (self.spec_data().subrange(
                    rv[i as int].0 as int,
                    rv[i as int].1 as int,
                ) + spec_ranges_bytes(self.spec_data(), rv.skip(i as int + 1))) =~= out@
                    + spec_ranges_bytes(self.spec_data(), rv.skip(i as int + 1)));
            }
            i = i + 1;
        }
        proof {
            assert(spec_ranges_bytes(self.spec_data(), rv.skip(rv.len() as int)) =~= Seq::<
                u8,
            >::empty());
            assert(out@ + Seq::<u8>::empty() =~= out@);
        }
        out
    }

    /// Finishes the current write by closing the shareable range: the next
    /// `get_or_write` will write fresh data.
    pub fn end_write(&mut self)
        requires
            old(self).wf(),
        ensures
            final(self).wf(),
            final(self).spec_data() == old(self).spec_data(),
            final(self).spec_last_write() is None,
    {
        self.last_write = None;
    }

    /// Appends `value` and returns its range.
    pub fn write(&mut self, value: &Vec<u8>) -> (r: (usize, usize))
        requires
            old(self).wf(),
            old(self).spec_data().len() + value@.len() <= usize::MAX,
        ensures
            final(self).wf(),
            final(self).spec_data() == old(self).spec_data() + value@,
            r.0 == old(self).spec_data().len(),
            r.1 == final(self).spec_data().len(),
            final(self).spec_last_write() == old(self).spec_last_write(),
    {
        let begin = self.position;
        self.push_all(value);
        (begin, self.position)
    }

    /// Returns the still-open range of the previous write, or appends
    /// `value` and opens its range for sharing.
    pub fn get_or_write(&mut self, value: &Vec<u8>) -> (r: (usize, usize))
        requires
            old(self).wf(),
            old(self).spec_data().len() + value@.len() <= usize::MAX,
        ensures
            final(self).wf(),
            match old(self).spec_last_write() {
                Some(range) => r == range && *final(self) == *old(self),
                None => {
                    &&& final(self).spec_data() == old(self).spec_data() + value@
                    &&& r.0 == old(self).spec_data().len()
                    &&& r.1 == final(self).spec_data().len()
                    &&& final(self).spec_last_write() == Some(r)
                },
            },
    {
        if let Some(range) = self.last_write {
            return range;
        }
        let begin = self.position;
        self.push_all(value);
        let range = (begin, self.position);
        self.last_write = Some(range);
        range
    }

    /// Appends bytes at the used prefix's end, reusing capacity past it.
    #[verifier::loop_isolation(false)]
    fn push_all(&mut self, value: &Vec<u8>)
        requires
            old(self).wf(),
            old(self).spec_data().len() + value@.len() <= usize::MAX,
        ensures
            final(self).wf(),
            final(self).spec_data() == old(self).spec_data() + value@,
            final(self).position == old(self).position + value@.len(),
            final(self).last_write == old(self).last_write,
    {
        let ghost base = self.spec_data();
        proof {
            assert(base + value@.take(0) =~= base);
        }
        let mut i: usize = 0;
        while i < value.len()
            invariant
                i <= value@.len(),
                self.position == old(self).position + i,
                self.position <= self.data@.len(),
                self.last_write == old(self).last_write,
                old(self).wf(),
                self.spec_data() == base + value@.take(i as int),
            decreases value@.len() - i,
        {
            let b = value[i];
            let ghost pre_data = self.data@;
            let ghost pre_pos = self.position as int;
            if self.position < self.data.len() {
                self.data.set(self.position, b);
            } else {
                self.data.push(b);
            }
            self.position = self.position + 1;
            proof {
                assert(self.data@.take(pre_pos) =~= pre_data.take(pre_pos));
                assert(self.data@[pre_pos] == b);
                assert(self.spec_data() =~= base + value@.take(i as int + 1));
            }
            i = i + 1;
        }
        proof {
            assert(base + value@.take(value@.len() as int) =~= base + value@);
        }
    }
}

impl Default for ReplicationBuffer {
    /// An empty buffer.
    fn default() -> (r: Self)
        ensures
            r.wf(),
            r.spec_data().len() == 0,
            r.spec_last_write() is None,
    {
        Self::new()
    }
}

/// The bytes of `ranges` out of `data`, concatenated.
pub open spec fn spec_ranges_bytes(data: Seq<u8>, ranges: Seq<(usize, usize)>) -> Seq<u8>
    decreases ranges.len(),
{
    if ranges.len() == 0 {
        Seq::empty()
    } else {
        data.subrange(ranges[0].0 as int, ranges[0].1 as int) + spec_ranges_bytes(
            data,
            ranges.skip(1),
        )
    }
}

} // verus!
