//! Big-endian integer fields and the byte order of keys.
use vstd::prelude::*;

verus! {

/// The largest payload that is accepted.  Its size field holds its length
/// modulo 65536, so a payload of exactly 65536 bytes gets the field 0.
pub const MAX_PAYLOAD: usize = 65536;

/// The two-byte big-endian size field written in front of a payload of
/// `len` bytes: the low sixteen bits of `len`.
pub open spec fn size_field(len: int) -> Seq<u8> {
    seq![((len / 256) % 256) as u8, (len % 256) as u8]
}

/// The value of the big-endian 16-bit field that starts at `i`.
pub open spec fn be16_at(s: Seq<u8>, i: int) -> int {
    s[i] as int * 256 + s[i + 1] as int
}

/// The eight big-endian bytes of `x`.
pub open spec fn be64(x: u64) -> Seq<u8> {
    seq![
        (x >> 56u64) as u8,
        (x >> 48u64) as u8,
        (x >> 40u64) as u8,
        (x >> 32u64) as u8,
        (x >> 24u64) as u8,
        (x >> 16u64) as u8,
        (x >> 8u64) as u8,
        x as u8,
    ]
}

/// The value of the big-endian 64-bit field held by the first eight bytes of `s`.
pub open spec fn be64_value(s: Seq<u8>) -> u64 {
    (s[0] as u64) << 56u64 | (s[1] as u64) << 48u64 | (s[2] as u64) << 40u64 | (s[3] as u64) << 32u64
        | (s[4] as u64) << 24u64 | (s[5] as u64) << 16u64 | (s[6] as u64) << 8u64 | (s[7] as u64)
}

/// `a` sorts strictly before `b` in lexicographic byte order (the order of
/// `[u8]`, `Vec<u8>` and `str`).
pub open spec fn bytes_lt(a: Seq<u8>, b: Seq<u8>) -> bool
    decreases a.len(),
{
    if b.len() == 0 {
        false
    } else if a.len() == 0 {
        true
    } else if a[0] != b[0] {
        a[0] < b[0]
    } else {
        bytes_lt(a.drop_first(), b.drop_first())
    }
}

/// The size field for a payload of `len` bytes.
pub fn size_field_bytes(len: usize) -> (r: [u8; 2])
    ensures
        r@ == size_field(len as int),
{
    let hi: u8 = ((len / 256) % 256) as u8;
    let lo: u8 = (len % 256) as u8;
    [hi, lo]
}

/// Reads the big-endian 16-bit field at `i`.
pub fn read_be16(s: &[u8], i: usize) -> (r: u16)
    requires
        i + 1 < s@.len(),
    ensures
        r as int == be16_at(s@, i as int),
{
    let hi: u16 = s[i] as u16;
    let lo: u16 = s[i + 1] as u16;
    hi * 256 + lo
}

/// The eight big-endian bytes of `x` (`u64::to_be_bytes`).
pub fn be64_bytes(x: u64) -> (r: Vec<u8>)
    ensures
        r@ == be64(x),
{
    let mut r: Vec<u8> = Vec::new();
    r.push((x >> 56u64) as u8);
    r.push((x >> 48u64) as u8);
    r.push((x >> 40u64) as u8);
    r.push((x >> 32u64) as u8);
    r.push((x >> 24u64) as u8);
    r.push((x >> 16u64) as u8);
    r.push((x >> 8u64) as u8);
    r.push(x as u8);
    assert(r@ =~= be64(x));
    r
}

/// Reads the big-endian 64-bit field held by the first eight bytes of `s`
/// (`u64::from_be_bytes`).
pub fn read_be64(s: &[u8]) -> (r: u64)
    requires
        s@.len() >= 8,
    ensures
        r == be64_value(s@),
{
    (s[0] as u64) << 56u64 | (s[1] as u64) << 48u64 | (s[2] as u64) << 40u64 | (s[3] as u64) << 32u64
        | (s[4] as u64) << 24u64 | (s[5] as u64) << 16u64 | (s[6] as u64) << 8u64 | (s[7] as u64)
}

/// Writing a 64-bit value in big-endian order and reading it back gives the value.
pub proof fn lemma_be64_roundtrip(x: u64)
    ensures
        be64_value(be64(x)) == x,
{
    let b = be64(x);
    assert(((((x >> 56u64) as u8) as u64) << 56u64 | (((x >> 48u64) as u8) as u64) << 48u64
        | (((x >> 40u64) as u8) as u64) << 40u64 | (((x >> 32u64) as u8) as u64) << 32u64
        | (((x >> 24u64) as u8) as u64) << 24u64 | (((x >> 16u64) as u8) as u64) << 16u64
        | (((x >> 8u64) as u8) as u64) << 8u64 | ((x as u8) as u64)) == x) by (bit_vector);
}

/// Reading a size field gives the payload length modulo 65536.
pub proof fn lemma_size_field_value(len: int, s: Seq<u8>, i: int)
    requires
        0 <= len,
        0 <= i,
        i + 2 <= s.len(),
        s.subrange(i, i + 2) == size_field(len),
    ensures
        be16_at(s, i) == len % 65536,
{
    assert(s[i] == s.subrange(i, i + 2)[0]);
    assert(s[i + 1] == s.subrange(i, i + 2)[1]);
    assert(((len / 256) % 256) * 256 + len % 256 == len % 65536) by (nonlinear_arith)
        requires 0 <= len;
}

} // verus!
