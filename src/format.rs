//! Pieces shared by the two container formats: errors and fixed-width little-endian fields.
use vstd::prelude::*;

verus! {

#[derive(Debug, Clone, Copy, PartialEq, Eq, Structural)]
pub enum FormatError {
    /// The file was written by a newer format revision.
    VersionTooNew,
    /// The file was written by an older format revision.
    VersionTooOld,
    /// A chunk's length differs from the chunk size in the header.
    SizeMismatch,
    /// The bytes do not have the shape the format asks for.
    MalformedStream,
}

/// The outcome of comparing a file's version with the reader's.
pub open spec fn version_check(found: u8, current: u8) -> Result<(), FormatError> {
    if found > current {
        Err(FormatError::VersionTooNew)
    } else if found < current {
        Err(FormatError::VersionTooOld)
    } else {
        Ok(())
    }
}

/// Compares a file's version with the reader's.
pub fn check_version(found: u8, current: u8) -> (r: Result<(), FormatError>)
    ensures
        r == version_check(found, current),
{
    if found > current {
        Err(FormatError::VersionTooNew)
    } else if found < current {
        Err(FormatError::VersionTooOld)
    } else {
        Ok(())
    }
}

/// The four little-endian bytes of `v`.
pub open spec fn u32_le_bytes(v: u32) -> Seq<u8> {
    seq![(v & 0xff) as u8, ((v >> 8u32) & 0xff) as u8, ((v >> 16u32) & 0xff) as u8, ((v >> 24u32) & 0xff) as u8]
}

/// The integer whose little-endian bytes are `b0, b1, b2, b3`.
pub open spec fn u32_from_le(b0: u8, b1: u8, b2: u8, b3: u8) -> u32 {
    (b0 as u32) | ((b1 as u32) << 8u32) | ((b2 as u32) << 16u32) | ((b3 as u32) << 24u32)
}

/// The integer stored little-endian at `at` in `s`.
pub open spec fn u32_at(s: Seq<u8>, at: int) -> u32 {
    u32_from_le(s[at], s[at + 1], s[at + 2], s[at + 3])
}

/// Reading back the bytes of an integer gives the integer.
pub proof fn lemma_u32_le_round_trip(v: u32)
    ensures
        u32_at(u32_le_bytes(v), 0) == v,
{
    let b = u32_le_bytes(v);
    assert(u32_from_le(
        (v & 0xff) as u8,
        ((v >> 8u32) & 0xff) as u8,
        ((v >> 16u32) & 0xff) as u8,
        ((v >> 24u32) & 0xff) as u8,
    ) == v) by (bit_vector);
}

/// The byte that stores a flag.
pub open spec fn bool_byte(b: bool) -> u8 {
    if b {
        1
    } else {
        0
    }
}

/// Appends the bytes of `src`.
pub fn push_all(out: &mut Vec<u8>, src: &[u8])
    ensures
        final(out)@ == old(out)@ + src@,
{
    let ghost start = out@;
    let mut i: usize = 0;
    while i < src.len()
        invariant
            i <= src@.len(),
            out@ == start + src@.take(i as int),
        decreases src@.len() - i,
    {
        out.push(src[i]);
        i += 1;
        assert(out@ =~= start + src@.take(i as int));
    }
    assert(src@.take(i as int) =~= src@);
}

/// Appends the four little-endian bytes of `v`.
pub fn push_u32_le(out: &mut Vec<u8>, v: u32)
    ensures
        final(out)@ == old(out)@ + u32_le_bytes(v),
{
    let ghost start = out@;
    out.push((v & 0xff) as u8);
    out.push(((v >> 8u32) & 0xff) as u8);
    out.push(((v >> 16u32) & 0xff) as u8);
    out.push(((v >> 24u32) & 0xff) as u8);
    assert(out@ =~= start + u32_le_bytes(v));
}

/// The integer stored little-endian at `at`.
pub fn read_u32_le(bytes: &[u8], at: usize) -> (r: u32)
    requires
        at + 4 <= bytes@.len(),
    ensures
        r == u32_at(bytes@, at as int),
{
    (bytes[at] as u32) | ((bytes[at + 1] as u32) << 8u32) | ((bytes[at + 2] as u32) << 16u32) | ((
    bytes[at + 3] as u32) << 24u32)
}

} // verus!
