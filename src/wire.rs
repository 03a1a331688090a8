use vstd::prelude::*;
use byteorder::{ByteOrder, NetworkEndian};

verus! {

/// The two bytes of `n`, most significant first.
pub open spec fn be_u16(n: u16) -> Seq<u8> {
    seq![(n >> 8u16) as u8, n as u8]
}

/// The four bytes of `n`, most significant first.
pub open spec fn be_u32(n: u32) -> Seq<u8> {
    seq![(n >> 24u32) as u8, (n >> 16u32) as u8, (n >> 8u32) as u8, n as u8]
}

/// The eight bytes of `n`, most significant first.
pub open spec fn be_u64(n: u64) -> Seq<u8> {
    be_u32((n >> 32u64) as u32) + be_u32(n as u32)
}

/// The number that two bytes spell, most significant first.
pub open spec fn u16_of(b: Seq<u8>) -> u16 {
    (((b[0] as u16) << 8u16) | (b[1] as u16)) as u16
}

/// The number that four bytes spell, most significant first.
pub open spec fn u32_of(b: Seq<u8>) -> u32 {
    (((b[0] as u32) << 24u32) | ((b[1] as u32) << 16u32) | ((b[2] as u32) << 8u32) | (
    b[3] as u32)) as u32
}

/// The number that eight bytes spell, most significant first.
pub open spec fn u64_of(b: Seq<u8>) -> u64 {
    ((((u32_of(b.subrange(0, 4)) as u64) << 32u64) | (u32_of(b.subrange(4, 8)) as u64))) as u64
}

proof fn lemma_u32_bytes(n: u32)
    ensures
        ((((n >> 24u32) as u8) as u32) << 24u32) | ((((n >> 16u32) as u8) as u32) << 16u32) | ((((n
            >> 8u32) as u8) as u32) << 8u32) | ((n as u8) as u32) == n,
{
    assert(((((n >> 24u32) as u8) as u32) << 24u32) | ((((n >> 16u32) as u8) as u32) << 16u32) | ((
    ((n >> 8u32) as u8) as u32) << 8u32) | ((n as u8) as u32) == n) by (bit_vector);
}

/// Reading back the four bytes of `n` gives `n`.
pub proof fn lemma_u32_round_trip(n: u32)
    ensures
        u32_of(be_u32(n)) == n,
{
    lemma_u32_bytes(n);
}

/// Different numbers have different bytes.
pub proof fn lemma_be_u32_injective(a: u32, b: u32)
    requires
        be_u32(a) == be_u32(b),
    ensures
        a == b,
{
    lemma_u32_round_trip(a);
    lemma_u32_round_trip(b);
}

/// Four bytes are the bytes of the number they spell.
pub proof fn lemma_be_u32_of(b: Seq<u8>)
    requires
        b.len() == 4,
    ensures
        be_u32(u32_of(b)) == b,
{
    let (b0, b1, b2, b3) = (b[0], b[1], b[2], b[3]);
    let n = u32_of(b);
    assert(n == (((b0 as u32) << 24u32) | ((b1 as u32) << 16u32) | ((b2 as u32) << 8u32) | (
    b3 as u32)));
    assert(((n >> 24u32) as u8) == b0 && ((n >> 16u32) as u8) == b1 && ((n >> 8u32) as u8) == b2 && (
    n as u8) == b3) by (bit_vector)
        requires
            n == (((b0 as u32) << 24u32) | ((b1 as u32) << 16u32) | ((b2 as u32) << 8u32) | (
            b3 as u32)),
    ;
    assert(be_u32(n) =~= b);
}

/// Relies on byteorder's `NetworkEndian::write_u16`: it writes the two bytes
/// of `n`, most significant first.
#[verifier::external_body]
pub(crate) fn u16_bytes(n: u16) -> (r: [u8; 2])
    ensures
        r@ == be_u16(n),
{
    let mut b = [0u8; 2];
    NetworkEndian::write_u16(&mut b, n);
    b
}

/// Relies on byteorder's `NetworkEndian::write_u32`: it writes the four bytes
/// of `n`, most significant first.
#[verifier::external_body]
pub(crate) fn u32_bytes(n: u32) -> (r: [u8; 4])
    ensures
        r@ == be_u32(n),
{
    let mut b = [0u8; 4];
    NetworkEndian::write_u32(&mut b, n);
    b
}

/// Relies on byteorder's `NetworkEndian::write_u64`: it writes the eight bytes
/// of `n`, most significant first.
#[verifier::external_body]
pub(crate) fn u64_bytes(n: u64) -> (r: [u8; 8])
    ensures
        r@ == be_u64(n),
{
    let mut b = [0u8; 8];
    NetworkEndian::write_u64(&mut b, n);
    b
}

/// Relies on byteorder's `NetworkEndian::read_u16`: it reads the first two
/// bytes, most significant first.
#[verifier::external_body]
pub(crate) fn read_u16_at(b: &[u8], at: usize) -> (r: u16)
    requires
        at + 2 <= b@.len(),
    ensures
        r == u16_of(b@.subrange(at as int, at + 2)),
{
    NetworkEndian::read_u16(&b[at..])
}

/// Relies on byteorder's `NetworkEndian::read_u32`: it reads the first four
/// bytes, most significant first.
#[verifier::external_body]
pub(crate) fn read_u32_at(b: &[u8], at: usize) -> (r: u32)
    requires
        at + 4 <= b@.len(),
    ensures
        r == u32_of(b@.subrange(at as int, at + 4)),
{
    NetworkEndian::read_u32(&b[at..])
}

/// Relies on byteorder's `NetworkEndian::read_u64`: it reads the first eight
/// bytes, most significant first.
#[verifier::external_body]
pub(crate) fn read_u64_at(b: &[u8], at: usize) -> (r: u64)
    requires
        at + 8 <= b@.len(),
    ensures
        r == u64_of(b@.subrange(at as int, at + 8)),
{
    NetworkEndian::read_u64(&b[at..])
}

/// Appends the bytes of `src`.
pub fn push_all(out: &mut Vec<u8>, src: &[u8])
    ensures
        final(out)@ == old(out)@ + src@,
{
    let mut k: usize = 0;
    while k < src.len()
        invariant
            k <= src@.len(),
            out@ == old(out)@ + src@.subrange(0, k as int),
        decreases src.len() - k,
    {
        out.push(src[k]);
        k = k + 1;
        assert(out@ =~= old(out)@ + src@.subrange(0, k as int));
    }
    assert(src@.subrange(0, k as int) =~= src@);
}

/// Appends the four bytes of `n`, most significant first.
pub fn push_u32(out: &mut Vec<u8>, n: u32)
    ensures
        final(out)@ == old(out)@ + be_u32(n),
{
    let b = u32_bytes(n);
    push_all(out, &b);
}

/// Appends the eight bytes of `n`, most significant first.
pub fn push_u64(out: &mut Vec<u8>, n: u64)
    ensures
        final(out)@ == old(out)@ + be_u64(n),
{
    let b = u64_bytes(n);
    push_all(out, &b);
}

/// Appends the two bytes of `n`, most significant first.
pub fn push_u16(out: &mut Vec<u8>, n: u16)
    ensures
        final(out)@ == old(out)@ + be_u16(n),
{
    let b = u16_bytes(n);
    push_all(out, &b);
}

/// The bytes `data[a..b]` as a vector.
pub fn copy_range(data: &[u8], a: usize, b: usize) -> (r: Vec<u8>)
    requires
        a <= b <= data@.len(),
    ensures
        r@ == data@.subrange(a as int, b as int),
{
    let mut r: Vec<u8> = Vec::new();
    let mut k: usize = a;
    while k < b
        invariant
            a <= k <= b <= data@.len(),
            r@ == data@.subrange(a as int, k as int),
        decreases b - k,
    {
        r.push(data[k]);
        k = k + 1;
        assert(r@ =~= data@.subrange(a as int, k as int));
    }
    r
}

} // verus!
