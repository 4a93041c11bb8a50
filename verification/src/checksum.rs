use vstd::prelude::*;

verus! {

/// The CRC-32 (IEEE) checksum of `bytes`, as `crc32fast` computes it.
pub uninterp spec fn crc32(bytes: Seq<u8>) -> u32;

/// Calls `crc32fast::hash`, which returns the CRC-32 checksum of the whole
/// slice. The contract claims only that the result is the checksum named
/// `crc32` of the slice's bytes: equal bytes give equal checksums.
#[verifier::external_body]
fn crc32_of(bytes: &[u8]) -> (c: u32)
    ensures
        c == crc32(bytes@),
{
    crc32fast::hash(bytes)
}

/// The checksum of a record header followed by a payload.
pub fn checksum(header: &[u8], payload: &[u8]) -> (c: u32)
    ensures
        c == crc32(header@ + payload@),
{
    let mut joined: Vec<u8> = Vec::with_capacity(header.len());
    let mut i: usize = 0;
    while i < header.len()
        invariant
            i <= header.len(),
            joined@ == header@.subrange(0, i as int),
        decreases header.len() - i,
    {
        joined.push(header[i]);
        i += 1;
    }
    let mut j: usize = 0;
    while j < payload.len()
        invariant
            j <= payload.len(),
            joined@ == header@ + payload@.subrange(0, j as int),
        decreases payload.len() - j,
    {
        joined.push(payload[j]);
        j += 1;
    }
    assert(header@ + payload@.subrange(0, payload@.len() as int) == header@ + payload@);
    crc32_of(joined.as_slice())
}

} // verus!
