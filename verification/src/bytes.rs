//! Big-endian fields: reading them from byte slices and appending them to
//! byte vectors.
use vstd::prelude::*;

verus! {

/// The 16-bit big-endian field of `s` at offset `i`.
pub open spec fn be16_at(s: Seq<u8>, i: int) -> int {
    s[i] * 256 + s[i + 1]
}

/// The 32-bit big-endian field of `s` at offset `i`.
pub open spec fn be32_at(s: Seq<u8>, i: int) -> int {
    s[i] * 16777216 + s[i + 1] * 65536 + s[i + 2] * 256 + s[i + 3]
}

/// The two wire bytes of a 16-bit value.
pub open spec fn be16_bytes(x: u16) -> Seq<u8> {
    seq![(x / 256) as u8, (x % 256) as u8]
}

/// The four wire bytes of a 32-bit value.
pub open spec fn be32_bytes(x: u32) -> Seq<u8> {
    seq![
        (x / 16777216) as u8,
        (x / 65536 % 256) as u8,
        (x / 256 % 256) as u8,
        (x % 256) as u8,
    ]
}

/// Read the 16-bit big-endian field at `i`.
pub fn get_be16(s: &[u8], i: usize) -> (r: u16)
    requires
        i + 2 <= s@.len(),
    ensures
        r == be16_at(s@, i as int),
{
    s[i] as u16 * 256 + s[i + 1] as u16
}

/// Read the 32-bit big-endian field at `i`.
pub fn get_be32(s: &[u8], i: usize) -> (r: u32)
    requires
        i + 4 <= s@.len(),
    ensures
        r == be32_at(s@, i as int),
{
    s[i] as u32 * 16777216 + s[i + 1] as u32 * 65536 + s[i + 2] as u32 * 256 + s[i + 3] as u32
}

/// Append a 16-bit value in network byte order.
pub fn put_be16(v: &mut Vec<u8>, x: u16)
    ensures
        final(v)@ == old(v)@ + be16_bytes(x),
{
    let ghost before = v@;
    v.push((x / 256) as u8);
    v.push((x % 256) as u8);
    assert(v@ =~= before + be16_bytes(x));
}

/// Append a 32-bit value in network byte order.
pub fn put_be32(v: &mut Vec<u8>, x: u32)
    ensures
        final(v)@ == old(v)@ + be32_bytes(x),
{
    let ghost before = v@;
    v.push((x / 16777216) as u8);
    v.push((x / 65536 % 256) as u8);
    v.push((x / 256 % 256) as u8);
    v.push((x % 256) as u8);
    assert(v@ =~= before + be32_bytes(x));
}

/// Append every byte of `data`.
pub fn put_all(v: &mut Vec<u8>, data: &[u8])
    ensures
        final(v)@ == old(v)@ + data@,
{
    let ghost before = v@;
    let mut i: usize = 0;
    while i < data.len()
        invariant
            i <= data@.len(),
            v@ == before + data@.take(i as int),
        decreases data@.len() - i,
    {
        v.push(data[i]);
        i += 1;
        assert(data@.take(i as int) =~= data@.take(i - 1).push(data@[i - 1]));
    }
    assert(data@.take(i as int) =~= data@);
}

/// Copy a slice into a new vector.
pub fn to_vec(data: &[u8]) -> (v: Vec<u8>)
    ensures
        v@ == data@,
{
    let mut v: Vec<u8> = Vec::new();
    put_all(&mut v, data);
    assert(v@ =~= data@);
    v
}

/// Writing a 16-bit value and reading it back gives the value.
pub proof fn law_be16_roundtrip(x: u16)
    ensures
        be16_bytes(x).len() == 2,
        be16_at(be16_bytes(x), 0) == x,
{
}

/// Writing a 32-bit value and reading it back gives the value.
pub proof fn law_be32_roundtrip(x: u32)
    ensures
        be32_bytes(x).len() == 4,
        be32_at(be32_bytes(x), 0) == x,
{
    let a = x / 16777216;
    let b = x / 65536;
    let c = x / 256;
    assert(b == a * 256 + b % 256);
    assert(c == b * 256 + c % 256);
    assert(x == c * 256 + x % 256);
}

} // verus!
