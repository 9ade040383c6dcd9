//! Errors of the wire codec and big-endian integer fields.
use vstd::prelude::*;

verus! {

/// Why a message could not be encoded or decoded.
#[derive(Debug, Clone, Copy, PartialEq, Eq, Structural)]
pub enum WireError {
    /// A read ran past the end of the buffer.
    UnexpectedEnd,
    /// A compression pointer does not point strictly before the name that holds it.
    BadPointer,
    /// A decoded name is not valid UTF-8.
    InvalidUtf8,
    /// A label of a name to encode is longer than 63 bytes.
    LabelTooLong,
    /// A record's payload is longer than a 16-bit length field can give.
    RdataTooLong,
}

/// The two bytes of `x`, most significant first.
pub open spec fn be16(x: u16) -> Seq<u8> {
    seq![(x / 256) as u8, (x % 256) as u8]
}

/// The four bytes of `x`, most significant first.
pub open spec fn be32(x: u32) -> Seq<u8> {
    seq![(x / 0x100_0000) as u8, ((x / 0x1_0000) % 256) as u8, ((x / 256) % 256) as u8, (x % 256) as u8]
}

/// The big-endian 16-bit value at `pos`.
pub open spec fn u16_at(data: Seq<u8>, pos: int) -> u16 {
    (data[pos] as int * 256 + data[pos + 1] as int) as u16
}

/// The big-endian 32-bit value at `pos`.
pub open spec fn u32_at(data: Seq<u8>, pos: int) -> u32 {
    (data[pos] as int * 0x100_0000 + data[pos + 1] as int * 0x1_0000 + data[pos + 2] as int * 256
        + data[pos + 3] as int) as u32
}

/// Reads the big-endian 16-bit field at `pos`; the position after it comes back too.
pub fn read_u16(data: &[u8], pos: usize) -> (r: Result<(u16, usize), WireError>)
    ensures
        pos + 2 <= data@.len() ==> r == Ok::<(u16, usize), WireError>(
            (u16_at(data@, pos as int), (pos + 2) as usize),
        ),
        pos + 2 > data@.len() ==> r == Err::<(u16, usize), WireError>(WireError::UnexpectedEnd),
{
    if pos >= data.len() || data.len() - pos < 2 {
        return Err(WireError::UnexpectedEnd);
    }
    let v: u16 = (data[pos] as u16) * 256 + data[pos + 1] as u16;
    Ok((v, pos + 2))
}

/// Reads the big-endian 32-bit field at `pos`; the position after it comes back too.
pub fn read_u32(data: &[u8], pos: usize) -> (r: Result<(u32, usize), WireError>)
    ensures
        pos + 4 <= data@.len() ==> r == Ok::<(u32, usize), WireError>(
            (u32_at(data@, pos as int), (pos + 4) as usize),
        ),
        pos + 4 > data@.len() ==> r == Err::<(u32, usize), WireError>(WireError::UnexpectedEnd),
{
    if pos >= data.len() || data.len() - pos < 4 {
        return Err(WireError::UnexpectedEnd);
    }
    let v: u32 = (data[pos] as u32) * 0x100_0000 + (data[pos + 1] as u32) * 0x1_0000
        + (data[pos + 2] as u32) * 256 + data[pos + 3] as u32;
    Ok((v, pos + 4))
}

/// Appends the two big-endian bytes of `x`.
pub fn push_u16(out: &mut Vec<u8>, x: u16)
    ensures
        final(out)@ == old(out)@ + be16(x),
{
    out.push((x / 256) as u8);
    out.push((x % 256) as u8);
    assert(final(out)@ =~= old(out)@ + be16(x));
}

/// Appends the four big-endian bytes of `x`.
pub fn push_u32(out: &mut Vec<u8>, x: u32)
    ensures
        final(out)@ == old(out)@ + be32(x),
{
    out.push((x / 0x100_0000) as u8);
    out.push(((x / 0x1_0000) % 256) as u8);
    out.push(((x / 256) % 256) as u8);
    out.push((x % 256) as u8);
    assert(final(out)@ =~= old(out)@ + be32(x));
}

/// Appends `data[start..end]`.
pub fn push_slice(out: &mut Vec<u8>, data: &[u8], start: usize, end: usize)
    requires
        start <= end <= data@.len(),
    ensures
        final(out)@ == old(out)@ + data@.subrange(start as int, end as int),
{
    let mut i: usize = start;
    while i < end
        invariant
            start <= i <= end <= data@.len(),
            out@ == old(out)@ + data@.subrange(start as int, i as int),
        decreases end - i,
    {
        out.push(data[i]);
        i += 1;
        assert(out@ =~= old(out)@ + data@.subrange(start as int, i as int));
    }
}

} // verus!
