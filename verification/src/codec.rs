use vstd::prelude::*;

verus! {

/// Why a value could not be decoded. Any of these is fatal to the message
/// that was being read.
#[derive(Clone, Copy, Debug, PartialEq, Eq, Structural)]
pub enum DecodeError {
    /// The input ended before the value was complete.
    UnexpectedEnd,
    /// A variable-length integer ran past its byte limit or a decoded value
    /// did not fit its field.
    MalformedVarint,
    /// A component data entry named a function-set id that was never
    /// registered.
    UnknownFnsId,
}

/// Little-endian base-128 encoding of `n`: seven value bits per byte, the
/// high bit marking continuation, least significant group first.
pub open spec fn leb_bytes(n: u64) -> Seq<u8>
    decreases n,
{
    if n < 0x80 {
        seq![n as u8]
    } else {
        seq![((n % 0x80) + 0x80) as u8] + leb_bytes(n / 0x80)
    }
}

/// Reads a base-128 integer from the front of `s`: the value (unbounded) and
/// the number of bytes consumed. `None` when no terminating byte is found
/// within `max` bytes or before the end of `s`.
pub open spec fn varint_parse(s: Seq<u8>, max: nat) -> Option<(int, nat)>
    decreases max,
{
    if max == 0 || s.len() == 0 {
        None
    } else if s[0] < 0x80 {
        Some((s[0] as int, 1))
    } else {
        match varint_parse(s.skip(1), (max - 1) as nat) {
            None => None,
            Some((v, n)) => Some(((s[0] - 0x80) + v * 0x80, (n + 1) as nat)),
        }
    }
}

/// The longest encoding this library accepts for a single varint.
pub const MAX_VARINT_BYTES: usize = 10;

pub proof fn lemma_leb_bytes_len(n: u64)
    ensures
        1 <= leb_bytes(n).len() <= 10,
        n < 0x80 ==> leb_bytes(n).len() == 1,
    decreases n,
{
    if n >= 0x80 {
        lemma_leb_bytes_len(n / 0x80);
        assert(n / 0x80 < 0x0200_0000_0000_0000) by (bit_vector);
        assert(pow128(9) == 0x8000_0000_0000_0000) by {
            reveal_with_fuel(pow128, 10);
        }
        lemma_leb_small_len(n / 0x80, 9);
    }
}

/// Values below `2^(7*k)` encode in at most `k` bytes.
proof fn lemma_leb_small_len(n: u64, k: nat)
    requires
        1 <= k,
        n < pow128(k),
    ensures
        leb_bytes(n).len() <= k,
    decreases n,
{
    if n >= 0x80 {
        assert(k >= 2) by {
            if k == 1 {
                assert(pow128(1) == 0x80);
            }
        }
        assert(pow128(k) == pow128((k - 1) as nat) * 0x80);
        assert(n / 0x80 < pow128((k - 1) as nat)) by (nonlinear_arith)
            requires
                n < pow128((k - 1) as nat) * 0x80,
                n >= 0x80,
        ;
        lemma_leb_small_len(n / 0x80, (k - 1) as nat);
    }
}

/// A successful parse consumes between one and `max` bytes, never more than
/// the input holds, and yields a non-negative value.
pub proof fn lemma_varint_parse_len(s: Seq<u8>, max: nat)
    ensures
        varint_parse(s, max) matches Some(p) ==> 1 <= p.1 <= max && p.1 <= s.len() && p.0 >= 0,
    decreases max,
{
    if max > 0 && s.len() > 0 && s[0] >= 0x80 {
        lemma_varint_parse_len(s.skip(1), (max - 1) as nat);
    }
}

/// `128^k`, the number of values that fit in `k` base-128 digits.
pub open spec fn pow128(k: nat) -> int
    decreases k,
{
    if k == 0 {
        1
    } else {
        pow128((k - 1) as nat) * 0x80
    }
}

/// Parsing an encoded value followed by anything yields that value back and
/// consumes exactly the encoding.
pub proof fn lemma_varint_parse_encoded(n: u64, rest: Seq<u8>, max: nat)
    requires
        leb_bytes(n).len() <= max,
    ensures
        varint_parse(leb_bytes(n) + rest, max) == Some((n as int, leb_bytes(n).len())),
    decreases n,
{
    let s = leb_bytes(n) + rest;
    if n < 0x80 {
        assert(s[0] == n as u8);
    } else {
        lemma_leb_bytes_len(n / 0x80);
        assert(s[0] == ((n % 0x80) + 0x80) as u8);
        assert(s.skip(1) =~= leb_bytes(n / 0x80) + rest);
        lemma_varint_parse_encoded(n / 0x80, rest, (max - 1) as nat);
        assert((s[0] - 0x80) + (n / 0x80) * 0x80 == n) by (nonlinear_arith)
            requires
                s[0] == ((n % 0x80) + 0x80) as u8,
                n >= 0x80,
        ;
    }
}

/// What `read_varint` owes its caller at offset `pos`.
pub open spec fn varint_read_post(s: Seq<u8>, pos: int, r: Result<(u64, usize), DecodeError>) -> bool {
    match varint_parse(s.skip(pos), 10) {
        Some((v, n)) => {
            if v < 0x1_0000_0000_0000_0000 {
                r == Ok::<(u64, usize), DecodeError>((v as u64, (pos + n) as usize))
            } else {
                r == Err::<(u64, usize), DecodeError>(DecodeError::MalformedVarint)
            }
        },
        None => {
            if s.len() - pos < 10 {
                r == Err::<(u64, usize), DecodeError>(DecodeError::UnexpectedEnd)
            } else {
                r == Err::<(u64, usize), DecodeError>(DecodeError::MalformedVarint)
            }
        },
    }
}

/// Reads a base-128 varint of at most ten bytes whose value fits in 64 bits.
pub fn read_varint(data: &[u8], pos: usize) -> (r: Result<(u64, usize), DecodeError>)
    requires
        pos <= data@.len(),
    ensures
        varint_read_post(data@, pos as int, r),
        r matches Ok(v) ==> pos < v.1 <= data@.len(),
{
    read_varint_limited(data, pos, MAX_VARINT_BYTES)
}

/// Reads a base-128 varint, refusing encodings longer than `max` bytes.
fn read_varint_limited(data: &[u8], pos: usize, max: usize) -> (r: Result<
    (u64, usize),
    DecodeError,
>)
    requires
        pos <= data@.len(),
        max <= 10,
    ensures
        ({
            let s = data@.skip(pos as int);
            match varint_parse(s, max as nat) {
                Some((v, n)) => {
                    if v < 0x1_0000_0000_0000_0000 {
                        r == Ok::<(u64, usize), DecodeError>((v as u64, (pos + n) as usize))
                    } else {
                        r == Err::<(u64, usize), DecodeError>(DecodeError::MalformedVarint)
                    }
                },
                None => {
                    if s.len() < max {
                        r == Err::<(u64, usize), DecodeError>(DecodeError::UnexpectedEnd)
                    } else {
                        r == Err::<(u64, usize), DecodeError>(DecodeError::MalformedVarint)
                    }
                },
            }
        }),
        r matches Ok(v) ==> pos < v.1 <= data@.len(),
    decreases max,
{
    proof {
        lemma_varint_parse_len(data@.skip(pos as int), max as nat);
    }
    if max == 0 {
        return Err(DecodeError::MalformedVarint);
    }
    if pos >= data.len() {
        return Err(DecodeError::UnexpectedEnd);
    }
    let b = *vstd::slice::slice_index_get(data, pos);
    proof {
        assert(data@.skip(pos as int)[0] == data@[pos as int]);
    }
    if b < 0x80 {
        return Ok((b as u64, pos + 1));
    }
    proof {
        assert(data@.skip(pos as int).skip(1) =~= data@.skip(pos as int + 1));
    }
    match read_varint_limited(data, pos + 1, max - 1) {
        Ok((v, end)) => {
            if v >= 0x0200_0000_0000_0000 {
                // The tail alone would push the combined value past 64 bits.
                Err(DecodeError::MalformedVarint)
            } else {
                Ok(((b - 0x80) as u64 + v * 0x80, end))
            }
        },
        Err(e) => Err(e),
    }
}

/// The two bytes of `n`, least significant first.
pub open spec fn u16_le_bytes(n: u16) -> Seq<u8> {
    seq![(n % 0x100) as u8, (n / 0x100) as u8]
}

/// The four bytes of `n`, least significant first.
pub open spec fn u32_le_bytes(n: u32) -> Seq<u8> {
    seq![
        (n % 0x100) as u8,
        ((n / 0x100) % 0x100) as u8,
        ((n / 0x1_0000) % 0x100) as u8,
        ((n / 0x100_0000) % 0x100) as u8,
    ]
}

/// The eight bytes of `n`, least significant first.
pub open spec fn u64_le_bytes(n: u64) -> Seq<u8> {
    seq![
        (n % 0x100) as u8,
        ((n / 0x100) % 0x100) as u8,
        ((n / 0x1_0000) % 0x100) as u8,
        ((n / 0x100_0000) % 0x100) as u8,
        ((n / 0x1_0000_0000) % 0x100) as u8,
        ((n / 0x100_0000_0000) % 0x100) as u8,
        ((n / 0x1_0000_0000_0000) % 0x100) as u8,
        ((n / 0x100_0000_0000_0000) % 0x100) as u8,
    ]
}

/// The value of the two little-endian bytes at `pos`.
pub open spec fn u16_le_parse(s: Seq<u8>, pos: int) -> u16
    recommends
        0 <= pos,
        pos + 2 <= s.len(),
{
    (s[pos] + s[pos + 1] * 0x100) as u16
}

/// The value of the four little-endian bytes at `pos`.
pub open spec fn u32_le_parse(s: Seq<u8>, pos: int) -> u32
    recommends
        0 <= pos,
        pos + 4 <= s.len(),
{
    (s[pos] + s[pos + 1] * 0x100 + s[pos + 2] * 0x1_0000 + s[pos + 3] * 0x100_0000) as u32
}

/// The value of the eight little-endian bytes at `pos`.
pub open spec fn u64_le_parse(s: Seq<u8>, pos: int) -> u64
    recommends
        0 <= pos,
        pos + 8 <= s.len(),
{
    (s[pos] + s[pos + 1] * 0x100 + s[pos + 2] * 0x1_0000 + s[pos + 3] * 0x100_0000 + s[pos + 4]
        * 0x1_0000_0000 + s[pos + 5] * 0x100_0000_0000 + s[pos + 6] * 0x1_0000_0000_0000 + s[pos
        + 7] * 0x100_0000_0000_0000) as u64
}

/// Reading back the two little-endian bytes of `n` yields `n`.
pub proof fn lemma_u16_le_round_trip(n: u16, s: Seq<u8>, pos: int)
    requires
        0 <= pos,
        pos + 2 <= s.len(),
        s.subrange(pos, pos + 2) == u16_le_bytes(n),
    ensures
        u16_le_parse(s, pos) == n,
{
    assert(s[pos] == u16_le_bytes(n)[0]);
    assert(s[pos + 1] == u16_le_bytes(n)[1]);
}

/// Reading back the four little-endian bytes of `n` yields `n`.
pub proof fn lemma_u32_le_round_trip(n: u32, s: Seq<u8>, pos: int)
    requires
        0 <= pos,
        pos + 4 <= s.len(),
        s.subrange(pos, pos + 4) == u32_le_bytes(n),
    ensures
        u32_le_parse(s, pos) == n,
{
    assert(s[pos] == u32_le_bytes(n)[0]);
    assert(s[pos + 1] == u32_le_bytes(n)[1]);
    assert(s[pos + 2] == u32_le_bytes(n)[2]);
    assert(s[pos + 3] == u32_le_bytes(n)[3]);
}

/// Reading back the eight little-endian bytes of `n` yields `n`.
pub proof fn lemma_u64_le_round_trip(n: u64, s: Seq<u8>, pos: int)
    requires
        0 <= pos,
        pos + 8 <= s.len(),
        s.subrange(pos, pos + 8) == u64_le_bytes(n),
    ensures
        u64_le_parse(s, pos) == n,
{
    assert forall|i: int| 0 <= i < 8 implies s[pos + i] == u64_le_bytes(n)[i] by {
        assert(s.subrange(pos, pos + 8)[i] == s[pos + i]);
    }
    assert((n % 0x100) + ((n / 0x100) % 0x100) * 0x100 + ((n / 0x1_0000) % 0x100) * 0x1_0000 + ((n
        / 0x100_0000) % 0x100) * 0x100_0000 + ((n / 0x1_0000_0000) % 0x100) * 0x1_0000_0000 + ((n
        / 0x100_0000_0000) % 0x100) * 0x100_0000_0000 + ((n / 0x1_0000_0000_0000) % 0x100)
        * 0x1_0000_0000_0000 + ((n / 0x100_0000_0000_0000) % 0x100) * 0x100_0000_0000_0000
        == n) by (bit_vector);
}

/// Reads a fixed-width little-endian 16-bit integer.
pub fn read_u16_le(data: &[u8], pos: usize) -> (r: Result<(u16, usize), DecodeError>)
    requires
        pos <= data@.len(),
    ensures
        pos + 2 <= data@.len() ==> r == Ok::<(u16, usize), DecodeError>(
            (u16_le_parse(data@, pos as int), (pos + 2) as usize),
        ),
        pos + 2 > data@.len() ==> r == Err::<(u16, usize), DecodeError>(DecodeError::UnexpectedEnd),
{
    if data.len() - pos < 2 {
        return Err(DecodeError::UnexpectedEnd);
    }
    let b0 = *vstd::slice::slice_index_get(data, pos);
    let b1 = *vstd::slice::slice_index_get(data, pos + 1);
    Ok((b0 as u16 + b1 as u16 * 0x100, pos + 2))
}

/// Reads a fixed-width little-endian 32-bit integer.
pub fn read_u32_le(data: &[u8], pos: usize) -> (r: Result<(u32, usize), DecodeError>)
    requires
        pos <= data@.len(),
    ensures
        pos + 4 <= data@.len() ==> r == Ok::<(u32, usize), DecodeError>(
            (u32_le_parse(data@, pos as int), (pos + 4) as usize),
        ),
        pos + 4 > data@.len() ==> r == Err::<(u32, usize), DecodeError>(DecodeError::UnexpectedEnd),
{
    if data.len() - pos < 4 {
        return Err(DecodeError::UnexpectedEnd);
    }
    let b0 = *vstd::slice::slice_index_get(data, pos);
    let b1 = *vstd::slice::slice_index_get(data, pos + 1);
    let b2 = *vstd::slice::slice_index_get(data, pos + 2);
    let b3 = *vstd::slice::slice_index_get(data, pos + 3);
    Ok((b0 as u32 + b1 as u32 * 0x100 + b2 as u32 * 0x1_0000 + b3 as u32 * 0x100_0000, pos + 4))
}

/// Reads a fixed-width little-endian 64-bit integer.
pub fn read_u64_le(data: &[u8], pos: usize) -> (r: Result<(u64, usize), DecodeError>)
    requires
        pos <= data@.len(),
    ensures
        pos + 8 <= data@.len() ==> r == Ok::<(u64, usize), DecodeError>(
            (u64_le_parse(data@, pos as int), (pos + 8) as usize),
        ),
        pos + 8 > data@.len() ==> r == Err::<(u64, usize), DecodeError>(DecodeError::UnexpectedEnd),
{
    if data.len() - pos < 8 {
        return Err(DecodeError::UnexpectedEnd);
    }
    let b0 = *vstd::slice::slice_index_get(data, pos);
    let b1 = *vstd::slice::slice_index_get(data, pos + 1);
    let b2 = *vstd::slice::slice_index_get(data, pos + 2);
    let b3 = *vstd::slice::slice_index_get(data, pos + 3);
    let b4 = *vstd::slice::slice_index_get(data, pos + 4);
    let b5 = *vstd::slice::slice_index_get(data, pos + 5);
    let b6 = *vstd::slice::slice_index_get(data, pos + 6);
    let b7 = *vstd::slice::slice_index_get(data, pos + 7);
    Ok(
        (
            b0 as u64 + b1 as u64 * 0x100 + b2 as u64 * 0x1_0000 + b3 as u64 * 0x100_0000
                + b4 as u64 * 0x1_0000_0000 + b5 as u64 * 0x100_0000_0000 + b6 as u64
                * 0x1_0000_0000_0000 + b7 as u64 * 0x100_0000_0000_0000,
            pos + 8,
        ),
    )
}

/// The compact integer form used for function-set ids: values up to 250 are a
/// single byte; larger ones are a width marker followed by a fixed-width
/// little-endian integer.
pub open spec fn compact_bytes(n: u64) -> Seq<u8> {
    if n < 251 {
        seq![n as u8]
    } else if n < 0x1_0000 {
        seq![251u8] + u16_le_bytes(n as u16)
    } else if n < 0x1_0000_0000 {
        seq![252u8] + u32_le_bytes(n as u32)
    } else {
        seq![253u8] + u64_le_bytes(n)
    }
}

/// Reads a compact integer from the front of `s`: the value and the bytes
/// consumed. `None` when the input is too short or the marker is reserved.
pub open spec fn compact_parse(s: Seq<u8>) -> Option<(u64, nat)> {
    if s.len() == 0 {
        None
    } else if s[0] < 251 {
        Some((s[0] as u64, 1))
    } else if s[0] == 251 && s.len() >= 3 {
        Some((u16_le_parse(s, 1) as u64, 3))
    } else if s[0] == 252 && s.len() >= 5 {
        Some((u32_le_parse(s, 1) as u64, 5))
    } else if s[0] == 253 && s.len() >= 9 {
        Some((u64_le_parse(s, 1), 9))
    } else {
        None
    }
}

/// True when the input holds a reserved or oversized compact-integer marker
/// rather than merely ending early.
pub open spec fn compact_marker_bad(s: Seq<u8>) -> bool {
    s.len() > 0 && s[0] >= 254
}

/// Reads a compact integer as used for function-set ids.
pub fn read_compact(data: &[u8], pos: usize) -> (r: Result<(u64, usize), DecodeError>)
    requires
        pos <= data@.len(),
    ensures
        ({
            let s = data@.skip(pos as int);
            match compact_parse(s) {
                Some((v, n)) => r == Ok::<(u64, usize), DecodeError>((v, (pos + n) as usize)),
                None => {
                    if compact_marker_bad(s) {
                        r == Err::<(u64, usize), DecodeError>(DecodeError::MalformedVarint)
                    } else {
                        r == Err::<(u64, usize), DecodeError>(DecodeError::UnexpectedEnd)
                    }
                },
            }
        }),
        r matches Ok(v) ==> pos < v.1 <= data@.len(),
{
    let ghost s = data@.skip(pos as int);
    if pos >= data.len() {
        return Err(DecodeError::UnexpectedEnd);
    }
    let b = *vstd::slice::slice_index_get(data, pos);
    proof {
        assert(s[0] == data@[pos as int]);
        assert(forall|i: int| 0 <= i < s.len() ==> s[i] == data@[pos + i]);
    }
    if b < 251 {
        Ok((b as u64, pos + 1))
    } else if b == 251 {
        match read_u16_le(data, pos + 1) {
            Ok((v, end)) => {
                proof {
                    assert(u16_le_parse(data@, pos + 1) == u16_le_parse(s, 1));
                }
                Ok((v as u64, end))
            },
            Err(e) => Err(e),
        }
    } else if b == 252 {
        match read_u32_le(data, pos + 1) {
            Ok((v, end)) => {
                proof {
                    assert(u32_le_parse(data@, pos + 1) == u32_le_parse(s, 1));
                }
                Ok((v as u64, end))
            },
            Err(e) => Err(e),
        }
    } else if b == 253 {
        match read_u64_le(data, pos + 1) {
            Ok((v, end)) => {
                proof {
                    assert(u64_le_parse(data@, pos + 1) == u64_le_parse(s, 1));
                }
                Ok((v, end))
            },
            Err(e) => Err(e),
        }
    } else {
        Err(DecodeError::MalformedVarint)
    }
}

/// Relies on integer-encoding's `VarIntWriter::write_varint` for `u64`:
/// appends the little-endian base-128 encoding, continuation bit set on every
/// byte but the last.
#[verifier::external_body]
pub fn write_varint(buf: &mut Vec<u8>, value: u64)
    ensures
        final(buf)@ == old(buf)@ + leb_bytes(value),
{
    integer_encoding::VarIntWriter::write_varint(buf, value).expect(
        "writing to a vector cannot fail",
    );
}

/// Relies on bincode's `serialize_into` for `u16` with its default options:
/// appends the two bytes of the value, least significant first.
#[verifier::external_body]
pub fn write_u16_le(buf: &mut Vec<u8>, value: u16)
    ensures
        final(buf)@ == old(buf)@ + u16_le_bytes(value),
{
    bincode::serialize_into(&mut *buf, &value).expect("writing to a vector cannot fail");
}

/// Relies on bincode's `serialize_into` for `u32` with its default options:
/// appends the four bytes of the value, least significant first.
#[verifier::external_body]
pub fn write_u32_le(buf: &mut Vec<u8>, value: u32)
    ensures
        final(buf)@ == old(buf)@ + u32_le_bytes(value),
{
    bincode::serialize_into(&mut *buf, &value).expect("writing to a vector cannot fail");
}

/// Relies on bincode's `DefaultOptions` serializer for `u64`, whose varint
/// encoding writes values up to 250 as one byte and larger ones as a width
/// marker followed by a fixed-width little-endian integer.
#[verifier::external_body]
pub fn write_compact(buf: &mut Vec<u8>, value: u64)
    ensures
        final(buf)@ == old(buf)@ + compact_bytes(value),
{
    <bincode::DefaultOptions as bincode::Options>::serialize_into(
        bincode::DefaultOptions::new(),
        &mut *buf,
        &value,
    ).expect("writing to a vector cannot fail");
}

/// Parsing an appended compact encoding yields the value back.
pub proof fn lemma_compact_parse_encoded(n: u64, rest: Seq<u8>)
    ensures
        compact_parse(compact_bytes(n) + rest) == Some((n, compact_bytes(n).len())),
{
    let s = compact_bytes(n) + rest;
    if n < 251 {
        assert(s[0] == n as u8);
    } else if n < 0x1_0000 {
        assert(s[0] == 251u8);
        assert(s.subrange(1, 3) =~= u16_le_bytes(n as u16));
        lemma_u16_le_round_trip(n as u16, s, 1);
    } else if n < 0x1_0000_0000 {
        assert(s[0] == 252u8);
        assert(s.subrange(1, 5) =~= u32_le_bytes(n as u32));
        lemma_u32_le_round_trip(n as u32, s, 1);
    } else {
        assert(s[0] == 253u8);
        assert(s.subrange(1, 9) =~= u64_le_bytes(n));
        lemma_u64_le_round_trip(n, s, 1);
    }
}

} // verus!
