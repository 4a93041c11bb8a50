//! Big-endian byte layouts of the fixed-width integers in a record.
use vstd::prelude::*;

verus! {

/// The two big-endian bytes of `x`.
pub open spec fn be16_bytes(x: u16) -> Seq<u8> {
    seq![(x / 256) as u8, (x % 256) as u8]
}

/// The four big-endian bytes of `x`.
pub open spec fn be32_bytes(x: u32) -> Seq<u8> {
    seq![
        (x / 0x100_0000) as u8,
        ((x / 0x1_0000) % 256) as u8,
        ((x / 256) % 256) as u8,
        (x % 256) as u8,
    ]
}

/// The integer whose big-endian bytes start `s` at `at`.
pub open spec fn be16_at(s: Seq<u8>, at: int) -> u16 {
    (s[at] * 256 + s[at + 1]) as u16
}

/// The integer whose big-endian bytes start `s` at `at`.
pub open spec fn be32_at(s: Seq<u8>, at: int) -> u32 {
    (s[at] * 0x100_0000 + s[at + 1] * 0x1_0000 + s[at + 2] * 256 + s[at + 3]) as u32
}

pub proof fn lemma_be16_roundtrip(x: u16)
    ensures
        be16_at(be16_bytes(x), 0) == x,
        be16_bytes(x).len() == 2,
{
}

pub proof fn lemma_be32_roundtrip(x: u32)
    ensures
        be32_at(be32_bytes(x), 0) == x,
        be32_bytes(x).len() == 4,
{
    let b0 = x / 0x100_0000;
    let b1 = (x / 0x1_0000) % 256;
    let b2 = (x / 256) % 256;
    let b3 = x % 256;
    assert(b0 * 0x100_0000 + b1 * 0x1_0000 + b2 * 256 + b3 == x) by (nonlinear_arith)
        requires
            b0 == x / 0x100_0000,
            b1 == (x / 0x1_0000) % 256,
            b2 == (x / 256) % 256,
            b3 == x % 256,
    ;
}

/// Two bytes are the big-endian bytes of the integer they spell.
pub proof fn lemma_be16_bytes(s: Seq<u8>, at: int)
    requires
        0 <= at && at + 2 <= s.len(),
    ensures
        be16_bytes(be16_at(s, at)) == s.subrange(at, at + 2),
{
    let b0 = s[at];
    let b1 = s[at + 1];
    let x = be16_at(s, at);
    assert(x / 256 == b0 && x % 256 == b1) by (nonlinear_arith)
        requires
            x == b0 * 256 + b1,
            b0 < 256,
            b1 < 256,
    ;
    assert(be16_bytes(x) =~= s.subrange(at, at + 2));
}

/// Four bytes are the big-endian bytes of the integer they spell.
pub proof fn lemma_be32_bytes(s: Seq<u8>, at: int)
    requires
        0 <= at && at + 4 <= s.len(),
    ensures
        be32_bytes(be32_at(s, at)) == s.subrange(at, at + 4),
{
    let b0 = s[at];
    let b1 = s[at + 1];
    let b2 = s[at + 2];
    let b3 = s[at + 3];
    let x = be32_at(s, at);
    assert(x / 0x100_0000 == b0 && (x / 0x1_0000) % 256 == b1 && (x / 256) % 256 == b2 && x % 256
        == b3) by (nonlinear_arith)
        requires
            x == b0 * 0x100_0000 + b1 * 0x1_0000 + b2 * 256 + b3,
            b0 < 256,
            b1 < 256,
            b2 < 256,
            b3 < 256,
    ;
    assert(be32_bytes(x) =~= s.subrange(at, at + 4));
}

pub fn u16_to_be(x: u16) -> (b: [u8; 2])
    ensures
        b@ == be16_bytes(x),
{
    [(x / 256) as u8, (x % 256) as u8]
}

pub fn u32_to_be(x: u32) -> (b: [u8; 4])
    ensures
        b@ == be32_bytes(x),
{
    [(x / 0x100_0000) as u8, ((x / 0x1_0000) % 256) as u8, ((x / 256) % 256) as u8, (x % 256) as u8]
}

pub fn u16_from_be(s: &[u8], at: usize) -> (x: u16)
    requires
        at + 2 <= s@.len(),
    ensures
        x == be16_at(s@, at as int),
{
    (s[at] as u16) * 256 + (s[at + 1] as u16)
}

pub fn u32_from_be(s: &[u8], at: usize) -> (x: u32)
    requires
        at + 4 <= s@.len(),
    ensures
        x == be32_at(s@, at as int),
{
    (s[at] as u32) * 0x100_0000 + (s[at + 1] as u32) * 0x1_0000 + (s[at + 2] as u32) * 256 + (
    s[at + 3] as u32)
}

} // verus!
