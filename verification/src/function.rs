use vstd::prelude::*;

verus! {

/// The number whose little-endian bytes are `b0 b1 b2 b3`.
pub open spec fn le_u32(b0: u8, b1: u8, b2: u8, b3: u8) -> int {
    b0 + 256 * b1 + 65536 * b2 + 16777216 * b3
}

/// The number held by the first four bytes of `s`, read little-endian.
pub open spec fn spec_u32_from_bytes(s: Seq<u8>) -> u32 {
    le_u32(s[0], s[1], s[2], s[3]) as u32
}

/// The four little-endian bytes of `n`.
pub open spec fn spec_u32_to_bytes(n: u32) -> Seq<u8> {
    seq![
        (n % 256) as u8,
        ((n / 256) % 256) as u8,
        ((n / 65536) % 256) as u8,
        (n / 16777216) as u8,
    ]
}

/// Decoding the encoding of a number gives the number back.
pub proof fn lemma_u32_bytes_roundtrip(n: u32)
    ensures
        spec_u32_to_bytes(n).len() == 4,
        spec_u32_from_bytes(spec_u32_to_bytes(n)) == n,
{
}

/// Encoding the number held by four bytes gives the bytes back.
pub proof fn lemma_bytes_u32_roundtrip(s: Seq<u8>)
    requires
        s.len() == 4,
    ensures
        spec_u32_to_bytes(spec_u32_from_bytes(s)) =~= s,
{
    let v = le_u32(s[0], s[1], s[2], s[3]);
    assert(0 <= v < 0x1_0000_0000);
    assert(v % 256 == s[0] as int);
    assert((v / 256) % 256 == s[1] as int);
    assert((v / 65536) % 256 == s[2] as int);
    assert(v / 16777216 == s[3] as int);
}

/// The four bytes of `num` in the order the disk stores them.
pub fn u32_to_vec(num: u32) -> (v: Vec<u8>)
    ensures
        v@ == spec_u32_to_bytes(num),
{
    let mut v: Vec<u8> = Vec::new();
    v.push((num % 256) as u8);
    v.push(((num / 256) % 256) as u8);
    v.push(((num / 65536) % 256) as u8);
    v.push((num / 16777216) as u8);
    assert(v@ =~= spec_u32_to_bytes(num));
    v
}

/// The number stored in four bytes.
pub fn u8_to_u32(data: &Vec<u8>) -> (n: u32)
    requires
        data.len() == 4,
    ensures
        n == spec_u32_from_bytes(data@),
{
    bytes4_to_u32(data[0], data[1], data[2], data[3])
}

/// The number whose little-endian bytes are given.
pub fn bytes4_to_u32(b0: u8, b1: u8, b2: u8, b3: u8) -> (n: u32)
    ensures
        n == le_u32(b0, b1, b2, b3),
{
    (b0 as u32) + (b1 as u32) * 256 + (b2 as u32) * 65536 + (b3 as u32) * 16777216
}

} // verus!
