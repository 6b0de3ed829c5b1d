use vstd::prelude::*;

verus! {

use crate::codec::{
    leb_bytes, varint_parse, read_varint, write_varint, DecodeError, lemma_varint_parse_encoded,
    lemma_leb_bytes_len, lemma_varint_parse_len,
};
use crate::entity::Entity;

/// The index doubled, with the low bit flagging a non-zero generation. The
/// doubling wraps at 32 bits, as the wire format stores the flagged index in
/// a 32-bit field: the top index bit is lost on entities past `2^31`.
pub open spec fn flagged_index_of(e: Entity) -> u64 {
    (((e.index * 2) % 0x1_0000_0000) + if e.generation > 0 {
        1int
    } else {
        0int
    }) as u64
}

/// Wire form of an entity: the flagged index as a varint, then the
/// generation as a varint when the flag is set.
pub open spec fn entity_bytes(e: Entity) -> Seq<u8> {
    leb_bytes(flagged_index_of(e)) + if e.generation > 0 {
        leb_bytes(e.generation as u64)
    } else {
        Seq::<u8>::empty()
    }
}

/// Reads an entity from the front of `s`: the entity and the bytes consumed.
/// `None` when a varint is malformed or a field does not fit 32 bits.
pub open spec fn entity_parse(s: Seq<u8>) -> Option<(Entity, nat)> {
    match varint_parse(s, 10) {
        None => None,
        Some((v, n)) => {
            if v >= 0x1_0000_0000_0000_0000 {
                None
            } else if v % 2 == 0 {
                if v / 2 < 0x1_0000_0000 {
                    Some((Entity { index: (v / 2) as u32, generation: 0 }, n))
                } else {
                    None
                }
            } else {
                match varint_parse(s.skip(n as int), 10) {
                    None => None,
                    Some((g, m)) => {
                        if g < 0x1_0000_0000 && v / 2 < 0x1_0000_0000 {
                            Some(
                                (
                                    Entity { index: (v / 2) as u32, generation: g as u32 },
                                    (n + m) as nat,
                                ),
                            )
                        } else {
                            None
                        }
                    },
                }
            }
        },
    }
}

/// Which error `deserialize_entity` reports when `entity_parse` finds none.
pub open spec fn entity_parse_err(s: Seq<u8>) -> DecodeError {
    match varint_parse(s, 10) {
        None => {
            if s.len() < 10 {
                DecodeError::UnexpectedEnd
            } else {
                DecodeError::MalformedVarint
            }
        },
        Some((v, n)) => {
            if v >= 0x1_0000_0000_0000_0000 {
                DecodeError::MalformedVarint
            } else if v % 2 == 0 {
                DecodeError::MalformedVarint
            } else {
                match varint_parse(s.skip(n as int), 10) {
                    None => {
                        if s.len() - n < 10 {
                            DecodeError::UnexpectedEnd
                        } else {
                            DecodeError::MalformedVarint
                        }
                    },
                    Some(_) => DecodeError::MalformedVarint,
                }
            }
        },
    }
}

/// Appends the wire form of `e` to `buf`.
pub fn serialize_entity(buf: &mut Vec<u8>, e: Entity)
    ensures
        final(buf)@ == old(buf)@ + entity_bytes(e),
{
    let flag: u32 = if e.generation > 0 {
        1
    } else {
        0
    };
    let flagged: u32 = if e.index < 0x8000_0000 {
        e.index * 2 + flag
    } else {
        proof {
            assert((e.index * 2) % 0x1_0000_0000 == e.index * 2 - 0x1_0000_0000) by (nonlinear_arith)
                requires
                    0x8000_0000 <= e.index < 0x1_0000_0000,
            ;
        }
        (e.index - 0x8000_0000) * 2 + flag
    };
    write_varint(buf, flagged as u64);
    if e.generation > 0 {
        write_varint(buf, e.generation as u64);
    }
    proof {
        if e.generation > 0 {
            assert(buf@ =~= old(buf)@ + entity_bytes(e));
        } else {
            assert(buf@ =~= old(buf)@ + entity_bytes(e));
        }
    }
}

/// Reads an entity at `pos`, reporting exactly how decoding failed when it
/// does: a run-over varint or an oversized field is malformed, a short input
/// ends unexpectedly.
pub fn deserialize_entity(data: &[u8], pos: usize) -> (r: Result<(Entity, usize), DecodeError>)
    requires
        pos <= data@.len(),
    ensures
        ({
            let s = data@.skip(pos as int);
            match entity_parse(s) {
                Some((e, n)) => r == Ok::<(Entity, usize), DecodeError>((e, (pos + n) as usize)),
                None => r == Err::<(Entity, usize), DecodeError>(entity_parse_err(s)),
            }
        }),
        r matches Ok(v) ==> pos < v.1 <= data@.len(),
{
    let ghost s = data@.skip(pos as int);
    let dlen = data.len();
    let (v, mid) = match read_varint(data, pos) {
        Ok(p) => p,
        Err(e) => {
            return Err(e);
        },
    };
    proof {
        lemma_varint_parse_len(s, 10);
        if let Some((v0, n0)) = varint_parse(s, 10) {
            assert(pos + n0 <= dlen);
            assert(mid == pos + n0);
            assert(s.skip(n0 as int) =~= data@.skip(mid as int));
            lemma_varint_parse_len(s.skip(n0 as int), 10);
        }
    }
    if v % 2 == 0 {
        if v / 2 >= 0x1_0000_0000 {
            Err(DecodeError::MalformedVarint)
        } else {
            Ok((Entity { index: (v / 2) as u32, generation: 0 }, mid))
        }
    } else {
        let (g, end) = match read_varint(data, mid) {
            Ok(p) => p,
            Err(e) => {
                return Err(e);
            },
        };
        proof {
            if let Some((v0, n0)) = varint_parse(s, 10) {
                if let Some((g0, m0)) = varint_parse(s.skip(n0 as int), 10) {
                    assert(mid + m0 <= dlen);
                    assert(end == pos + (n0 + m0));
                }
            }
        }
        if g >= 0x1_0000_0000 || v / 2 >= 0x1_0000_0000 {
            Err(DecodeError::MalformedVarint)
        } else {
            Ok((Entity { index: (v / 2) as u32, generation: g as u32 }, end))
        }
    }
}

/// A successful entity parse consumes between one byte and the whole input.
pub proof fn lemma_entity_parse_len(s: Seq<u8>)
    ensures
        entity_parse(s) matches Some(p) ==> 1 <= p.1 <= s.len(),
{
    lemma_varint_parse_len(s, 10);
    if let Some((v, n)) = varint_parse(s, 10) {
        lemma_varint_parse_len(s.skip(n as int), 10);
    }
}

/// Round trip: decoding an encoded entity, with anything after it, yields
/// the entity back and consumes exactly its encoding. Holds for any
/// generation whenever the index fits in 31 bits; past that the doubling in
/// `flagged_index_of` is lossy by design.
pub proof fn lemma_entity_round_trip(e: Entity, rest: Seq<u8>)
    requires
        e.index < 0x8000_0000,
    ensures
        entity_parse(entity_bytes(e) + rest) == Some((e, entity_bytes(e).len() as nat)),
{
    let f = flagged_index_of(e);
    let s = entity_bytes(e) + rest;
    lemma_leb_bytes_len(f);
    assert(f == e.index * 2 + if e.generation > 0 { 1int } else { 0int });
    if e.generation > 0 {
        let grest = leb_bytes(e.generation as u64) + rest;
        assert(s =~= leb_bytes(f) + grest);
        lemma_varint_parse_encoded(f, grest, 10);
        let n = leb_bytes(f).len();
        assert(s.skip(n as int) =~= grest);
        lemma_leb_bytes_len(e.generation as u64);
        lemma_varint_parse_encoded(e.generation as u64, rest, 10);
        assert(f % 2 == 1 && f / 2 == e.index);
    } else {
        assert(s =~= leb_bytes(f) + rest);
        lemma_varint_parse_encoded(f, rest, 10);
        assert(f % 2 == 0 && f / 2 == e.index);
        assert(entity_bytes(e).len() == leb_bytes(f).len());
    }
}

} // verus!
