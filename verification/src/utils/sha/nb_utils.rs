use vstd::prelude::*;

verus! {

/// The five words that a SHA-1 computation starts from.
pub open spec fn initial_state() -> Seq<u32> {
    seq![0x67452301u32, 0xefcdab89u32, 0x98badcfeu32, 0x10325476u32, 0xc3d2e1f0u32]
}

/// The starting words of SHA-1, as an array.
pub fn sha1_init() -> (h: [u32; 5])
    ensures
        h@ == initial_state(),
{
    let h: [u32; 5] = [0x67452301, 0xefcdab89, 0x98badcfe, 0x10325476, 0xc3d2e1f0];
    assert(h@ =~= initial_state());
    h
}

/// The additive constant of round `t`.
pub open spec fn k_spec(t: int) -> u32 {
    if t < 20 {
        0x5a827999
    } else if t < 40 {
        0x6ed9eba1
    } else if t < 60 {
        0x8f1bbcdc
    } else {
        0xca62c1d6
    }
}

/// The additive constant of round `t`, for the 80 rounds of SHA-1.
pub fn constants_k_sha1(t: usize) -> (k: u32)
    requires
        t < 80,
    ensures
        k == k_spec(t as int),
{
    if t < 20 {
        0x5a827999
    } else if t < 40 {
        0x6ed9eba1
    } else if t < 60 {
        0x8f1bbcdc
    } else {
        0xca62c1d6
    }
}

} // verus!
