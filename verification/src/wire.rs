//! Wire primitives: little-endian integers and length-prefixed strings.
//!
//! A length-prefixed string is a 4-byte little-endian length followed by
//! exactly that many bytes of UTF-8 payload. Reading fails on a short input
//! or on a payload that is not valid UTF-8; a read that succeeds consumes
//! exactly the prefix plus the declared length, no more and no less.

use vstd::prelude::*;
use crate::RedactError;
use crate::utf8::is_utf8;

verus! {

/// The outcome of parsing one item from the front of a byte sequence:
/// a value together with the number of bytes it occupied, or the error
/// that the corresponding reader reports.
pub enum Parsed<T> {
    Fail(RedactError),
    Val(T, int),
}

/// Value of 4 bytes read as a little-endian unsigned integer.
pub open spec fn le32(b: Seq<u8>) -> int
    recommends
        b.len() == 4,
{
    b[0] + 0x100 * b[1] + 0x10000 * b[2] + 0x1000000 * b[3]
}

/// Value of 8 bytes read as a little-endian unsigned integer.
pub open spec fn le64(b: Seq<u8>) -> int
    recommends
        b.len() == 8,
{
    b[0] + 0x100 * b[1] + 0x10000 * b[2] + 0x1000000 * b[3] + 0x1_0000_0000 * b[4]
        + 0x100_0000_0000 * b[5] + 0x1_0000_0000_0000 * b[6] + 0x100_0000_0000_0000 * b[7]
}

/// The 4-byte little-endian encoding of an integer.
pub closed spec fn le32_bytes(v: int) -> Seq<u8>
    recommends
        0 <= v < 0x1_0000_0000,
{
    seq![
        (v % 0x100) as u8,
        ((v / 0x100) % 0x100) as u8,
        ((v / 0x10000) % 0x100) as u8,
        ((v / 0x1000000) % 0x100) as u8,
    ]
}

/// The encoding of an integer is always 4 bytes long.
pub broadcast proof fn lemma_le32_bytes_len(v: int)
    ensures
        (#[trigger] le32_bytes(v)).len() == 4,
{
}

/// The wire form of a string: little-endian length, then the payload bytes.
pub open spec fn lenpfx(s: Seq<u8>) -> Seq<u8>
    recommends
        s.len() <= u32::MAX,
{
    le32_bytes(s.len() as int) + s
}

/// The wire form of a string is 4 bytes longer than its payload.
pub broadcast proof fn lemma_lenpfx_len(s: Seq<u8>)
    ensures
        (#[trigger] lenpfx(s)).len() == 4 + s.len(),
{
}

/// Decoding the 4-byte encoding of `v` gives `v` back.
pub proof fn lemma_le32_of_bytes(v: u32)
    ensures
        le32(le32_bytes(v as int)) == v,
{
    assert(v % 0x100 + 0x100 * ((v / 0x100) % 0x100) + 0x10000 * ((v / 0x10000) % 0x100)
        + 0x1000000 * ((v / 0x1000000) % 0x100) == v) by (bit_vector);
}

/// Re-encoding the value read from 4 bytes gives the same 4 bytes back.
pub proof fn lemma_le32_bytes_of_le32(b: Seq<u8>)
    requires
        b.len() == 4,
    ensures
        0 <= le32(b) < 0x1_0000_0000,
        le32_bytes(le32(b)) == b,
{
    let b0 = b[0];
    let b1 = b[1];
    let b2 = b[2];
    let b3 = b[3];
    assert((b0 + 0x100 * b1 + 0x10000 * b2 + 0x1000000 * b3) % 0x100 == b0
        && ((b0 + 0x100 * b1 + 0x10000 * b2 + 0x1000000 * b3) / 0x100) % 0x100 == b1
        && ((b0 + 0x100 * b1 + 0x10000 * b2 + 0x1000000 * b3) / 0x10000) % 0x100 == b2
        && ((b0 + 0x100 * b1 + 0x10000 * b2 + 0x1000000 * b3) / 0x1000000) % 0x100 == b3
        && 0 <= b0 + 0x100 * b1 + 0x10000 * b2 + 0x1000000 * b3 < 0x1_0000_0000) by (bit_vector);
    assert(le32_bytes(le32(b)) =~= b);
}

/// Parse of a length-prefixed string from the front of `s`.
pub open spec fn parse_str(s: Seq<u8>) -> Parsed<Seq<u8>> {
    if s.len() < 4 {
        Parsed::Fail(RedactError::TruncatedInput)
    } else {
        let n = le32(s.subrange(0, 4));
        if s.len() < 4 + n {
            Parsed::Fail(RedactError::TruncatedInput)
        } else if !is_utf8(s.subrange(4, 4 + n)) {
            Parsed::Fail(RedactError::InvalidEncoding)
        } else {
            Parsed::Val(s.subrange(4, 4 + n), 4 + n)
        }
    }
}

/// A successful string parse consumes exactly the wire form of its value.
pub proof fn lemma_parse_str_exact(s: Seq<u8>)
    requires
        parse_str(s) matches Parsed::Val(v, k),
    ensures
        parse_str(s) matches Parsed::Val(v, k) ==> {
            &&& v.len() <= u32::MAX
            &&& is_utf8(v)
            &&& 4 <= k <= s.len()
            &&& k == 4 + v.len()
            &&& lenpfx(v) == s.subrange(0, k)
        },
{
    let n = le32(s.subrange(0, 4));
    lemma_le32_bytes_of_le32(s.subrange(0, 4));
    assert(lenpfx(s.subrange(4, 4 + n)) =~= s.subrange(0, 4 + n));
}

/// Parsing the wire form of a string gives the string back.
pub proof fn lemma_parse_str_of_lenpfx(v: Seq<u8>, rest: Seq<u8>)
    requires
        v.len() <= u32::MAX,
        is_utf8(v),
    ensures
        parse_str(lenpfx(v) + rest) == Parsed::Val(v, 4 + v.len() as int),
{
    let s = lenpfx(v) + rest;
    lemma_le32_of_bytes(v.len() as u32);
    assert(s.subrange(0, 4) =~= le32_bytes(v.len() as int));
    assert(le32(s.subrange(0, 4)) == v.len());
    assert(s.subrange(4, 4 + v.len() as int) =~= v);
}

/// Reads a 4-byte little-endian unsigned integer at `pos`.
pub fn read_u32_le(data: &Vec<u8>, pos: usize) -> (r: Result<(u32, usize), RedactError>)
    ensures
        pos + 4 <= data@.len() ==> (r matches Ok(p) && p.0 == le32(
            data@.subrange(pos as int, pos + 4),
        ) && p.1 == pos + 4),
        pos + 4 > data@.len() ==> r == Err::<(u32, usize), RedactError>(
            RedactError::TruncatedInput,
        ),
{
    if pos <= data.len() && data.len() - pos >= 4 {
        let v: u32 = data[pos] as u32 + 0x100 * (data[pos + 1] as u32) + 0x10000 * (data[pos
            + 2] as u32) + 0x1000000 * (data[pos + 3] as u32);
        Ok((v, pos + 4))
    } else {
        Err(RedactError::TruncatedInput)
    }
}

/// Reads an 8-byte little-endian unsigned integer at `pos`.
pub fn read_u64_le(data: &Vec<u8>, pos: usize) -> (r: Result<(u64, usize), RedactError>)
    ensures
        pos + 8 <= data@.len() ==> (r matches Ok(p) && p.0 == le64(
            data@.subrange(pos as int, pos + 8),
        ) && p.1 == pos + 8),
        pos + 8 > data@.len() ==> r == Err::<(u64, usize), RedactError>(
            RedactError::TruncatedInput,
        ),
{
    if pos <= data.len() && data.len() - pos >= 8 {
        let v: u64 = data[pos] as u64 + 0x100 * (data[pos + 1] as u64) + 0x10000 * (data[pos
            + 2] as u64) + 0x1000000 * (data[pos + 3] as u64) + 0x1_0000_0000 * (data[pos
            + 4] as u64) + 0x100_0000_0000 * (data[pos + 5] as u64) + 0x1_0000_0000_0000 * (
        data[pos + 6] as u64) + 0x100_0000_0000_0000 * (data[pos + 7] as u64);
        Ok((v, pos + 8))
    } else {
        Err(RedactError::TruncatedInput)
    }
}

/// Appends the 4-byte little-endian encoding of `v`.
pub fn write_u32_le(out: &mut Vec<u8>, v: u32)
    ensures
        final(out)@ == old(out)@ + le32_bytes(v as int),
{
    out.push((v % 0x100) as u8);
    out.push(((v / 0x100) % 0x100) as u8);
    out.push(((v / 0x10000) % 0x100) as u8);
    out.push(((v / 0x1000000) % 0x100) as u8);
    assert(out@ =~= old(out)@ + le32_bytes(v as int));
}

/// Appends `count` bytes of `data` starting at `pos` to `out`.
pub fn append_bytes(out: &mut Vec<u8>, data: &Vec<u8>, pos: usize, count: usize)
    requires
        pos + count <= data@.len(),
    ensures
        final(out)@ == old(out)@ + data@.subrange(pos as int, pos + count),
{
    let dlen: usize = data.len();
    let mut i: usize = 0;
    while i < count
        invariant
            i <= count,
            pos + count <= dlen,
            dlen == data@.len(),
            out@ == old(out)@ + data@.subrange(pos as int, pos + i),
        decreases count - i,
    {
        out.push(data[pos + i]);
        assert(out@ =~= old(out)@ + data@.subrange(pos as int, pos + i + 1));
        i = i + 1;
    }
}

/// Reads a length-prefixed UTF-8 string at `pos`, returning its payload
/// bytes and the position just past it.
pub fn read_lenpfx_string(data: &Vec<u8>, pos: usize) -> (r: Result<
    (Vec<u8>, usize),
    RedactError,
>)
    requires
        pos <= data@.len(),
    ensures
        (parse_str(data@.skip(pos as int)) matches Parsed::Val(v, k) ==> r matches Ok(p)
            && p.0@ == v && p.1 == pos + k),
        (parse_str(data@.skip(pos as int)) matches Parsed::Fail(e) ==> r == Err::<
            (Vec<u8>, usize),
            RedactError,
        >(e)),
{
    let ghost rest = data@.skip(pos as int);
    assert(rest.len() == data@.len() - pos);
    let (n, pos2) = match read_u32_le(data, pos) {
        Ok(p) => p,
        Err(e) => {
            return Err(e);
        },
    };
    proof {
        assert(rest.subrange(0, 4) =~= data@.subrange(pos as int, pos + 4));
    }
    let n_usize: usize = n as usize;
    if data.len() - pos2 < n_usize {
        assert(rest.len() < 4 + le32(rest.subrange(0, 4)));
        return Err(RedactError::TruncatedInput);
    }
    let mut payload: Vec<u8> = Vec::new();
    append_bytes(&mut payload, data, pos2, n_usize);
    proof {
        assert(payload@ =~= rest.subrange(4, 4 + n as int));
    }
    if !crate::utf8::utf8_valid(&payload) {
        return Err(RedactError::InvalidEncoding);
    }
    Ok((payload, pos2 + n_usize))
}

/// Appends the wire form of `s`: 4-byte little-endian length, then the bytes.
pub fn write_lenpfx_string(out: &mut Vec<u8>, s: &Vec<u8>)
    requires
        s@.len() <= u32::MAX,
    ensures
        final(out)@ == old(out)@ + lenpfx(s@),
{
    write_u32_le(out, s.len() as u32);
    append_bytes(out, s, 0, s.len());
    assert(s@.subrange(0, s@.len() as int) =~= s@);
    assert(out@ =~= old(out)@ + lenpfx(s@));
}

} // verus!
