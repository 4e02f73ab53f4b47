use vstd::prelude::*;
use vstd::slice::*;

verus! {

/// Rotation of a word to the left by `n` bits.
pub open spec fn rotl_spec(x: u32, n: u32) -> u32 {
    (x << n) | (x >> ((32 - n) as u32))
}

pub fn rotl(x: u32, n: u32) -> (r: u32)
    requires
        0 < n < 32,
    ensures
        r == rotl_spec(x, n),
{
    (x << n) | (x >> (32 - n))
}

/// The logical function of round `t`: choice, parity, majority, parity.
pub open spec fn f_spec(t: int, b: u32, c: u32, d: u32) -> u32 {
    if t < 20 {
        (b & c) | (!b & d)
    } else if t < 40 {
        b ^ c ^ d
    } else if t < 60 {
        (b & c) | (b & d) | (c & d)
    } else {
        b ^ c ^ d
    }
}

pub fn sha1f(t: usize, b: u32, c: u32, d: u32) -> (r: u32)
    requires
        t < 80,
    ensures
        r == f_spec(t as int, b, c, d),
{
    if t < 20 {
        (b & c) | (!b & d)
    } else if t < 40 {
        b ^ c ^ d
    } else if t < 60 {
        (b & c) | (b & d) | (c & d)
    } else {
        b ^ c ^ d
    }
}

/// The `k`-th big-endian word of a byte sequence.
pub open spec fn be_word(b: Seq<u8>, k: int) -> u32 {
    ((b[4 * k] as u32) << 24u32) | ((b[4 * k + 1] as u32) << 16u32) | ((b[4 * k + 2] as u32)
        << 8u32) | (b[4 * k + 3] as u32)
}

/// The sixteen big-endian words of a 64-byte block.
pub open spec fn block_words(b: Seq<u8>) -> Seq<u32> {
    Seq::new(16, |k: int| be_word(b, k))
}

/// Reads a 64-byte block as sixteen big-endian words.
pub fn chunky(data: &[u8]) -> (w: [u32; 16])
    requires
        data@.len() == 64,
    ensures
        w@ == block_words(data@),
{
    let mut w: [u32; 16] = [0; 16];
    let mut k: usize = 0;
    while k < 16
        invariant
            k <= 16,
            data@.len() == 64,
            forall|j: int| 0 <= j < k ==> #[trigger] w@[j] == be_word(data@, j),
        decreases 16 - k,
    {
        w[k] = ((data[4 * k] as u32) << 24u32) | ((data[4 * k + 1] as u32) << 16u32) | ((data[4
            * k + 2] as u32) << 8u32) | (data[4 * k + 3] as u32);
        k += 1;
    }
    assert(w@ =~= block_words(data@));
    w
}

/// Number of zero bytes that padding puts after the `0x80` byte, for a tail of `n` bytes.
pub open spec fn pad_zeros(n: nat) -> nat {
    if n % 64 <= 55 {
        (55 - n % 64) as nat
    } else {
        (119 - n % 64) as nat
    }
}

/// The message length in bits (modulo 2^64), as a 64-bit word.
pub open spec fn length_bits(total: nat) -> u64 {
    ((total % 0x2000_0000_0000_0000) * 8) as u64
}

/// The eight big-endian bytes of a 64-bit word.
pub open spec fn be_bytes64(x: u64) -> Seq<u8> {
    Seq::new(8, |i: int| ((x >> ((56 - 8 * i) as u64)) & 0xffu64) as u8)
}

/// What padding appends to the last `tail_len` bytes of a message of `total` bytes:
/// `0x80`, zero bytes up to 56 modulo 64, then the length in bits.
pub open spec fn pad_suffix(tail_len: nat, total: nat) -> Seq<u8> {
    seq![0x80u8] + Seq::new(pad_zeros(tail_len), |i: int| 0u8) + be_bytes64(length_bits(total))
}

pub proof fn lemma_padded_len(tail_len: nat, total: nat)
    ensures
        (tail_len + pad_suffix(tail_len, total).len()) % 64 == 0,
        pad_suffix(tail_len, total).len() <= 72,
{
    assert(pad_suffix(tail_len, total).len() == 1 + pad_zeros(tail_len) + 8);
}

/// The words of the `k`-th 64-byte block of `bytes`.
pub open spec fn nth_block(bytes: Seq<u8>, k: int) -> Seq<u32> {
    block_words(bytes.subrange(64 * k, 64 * k + 64))
}

/// Pads the last bytes of a message of `size` bytes and splits the result into blocks of words.
pub fn padding(leftover: &Vec<u8>, size: usize) -> (blocks: Vec<[u32; 16]>)
    requires
        leftover@.len() + 72 <= usize::MAX,
    ensures
        ({
            let padded = leftover@ + pad_suffix(leftover@.len(), size as nat);
            &&& blocks@.len() * 64 == padded.len()
            &&& forall|k: int|
                0 <= k < blocks@.len() ==> #[trigger] blocks@[k]@ == nth_block(padded, k)
        }),
{
    let ghost padded = leftover@ + pad_suffix(leftover@.len(), size as nat);
    let n = leftover.len();
    let mut bytes: Vec<u8> = Vec::new();
    let mut i: usize = 0;
    while i < n
        invariant
            i <= n == leftover@.len(),
            bytes@ == leftover@.take(i as int),
        decreases n - i,
    {
        bytes.push(leftover[i]);
        assert(bytes@ =~= leftover@.take(i + 1));
        i += 1;
    }
    assert(leftover@.take(n as int) =~= leftover@);
    bytes.push(0x80u8);
    let zeros: usize = if n % 64 <= 55 {
        55 - n % 64
    } else {
        119 - n % 64
    };
    let mut z: usize = 0;
    while z < zeros
        invariant
            z <= zeros == pad_zeros(n as nat),
            bytes@ == leftover@ + seq![0x80u8] + Seq::new(z as nat, |i: int| 0u8),
        decreases zeros - z,
    {
        bytes.push(0u8);
        assert(bytes@ =~= leftover@ + seq![0x80u8] + Seq::new((z + 1) as nat, |i: int| 0u8));
        z += 1;
    }
    let bits: u64 = ((size as u64) % 0x2000_0000_0000_0000u64) * 8;
    assert(bits == length_bits(size as nat));
    let mut b: usize = 0;
    while b < 8
        invariant
            b <= 8,
            bits == length_bits(size as nat),
            bytes@ == leftover@ + seq![0x80u8] + Seq::new(zeros as nat, |i: int| 0u8)
                + be_bytes64(bits).take(b as int),
        decreases 8 - b,
    {
        let shift: u64 = 56 - 8 * (b as u64);
        bytes.push(((bits >> shift) & 0xffu64) as u8);
        assert(be_bytes64(bits).take(b + 1) =~= be_bytes64(bits).take(b as int).push(
            ((bits >> shift) & 0xffu64) as u8,
        ));
        assert(bytes@ =~= leftover@ + seq![0x80u8] + Seq::new(zeros as nat, |i: int| 0u8)
            + be_bytes64(bits).take(b + 1));
        b += 1;
    }
    assert(be_bytes64(bits).take(8) =~= be_bytes64(bits));
    assert(bytes@ =~= padded);
    proof {
        lemma_padded_len(n as nat, size as nat);
    }
    let count = bytes.len() / 64;
    let mut blocks: Vec<[u32; 16]> = Vec::new();
    let mut k: usize = 0;
    while k < count
        invariant
            k <= count,
            count * 64 == padded.len(),
            padded.len() <= usize::MAX,
            bytes@ == padded,
            blocks@.len() == k,
            forall|j: int| 0 <= j < k ==> #[trigger] blocks@[j]@ == nth_block(padded, j),
        decreases count - k,
    {
        assert(64 * k + 64 <= 64 * count) by (nonlinear_arith)
            requires
                k < count,
        ;
        let words = chunky(slice_subrange(bytes.as_slice(), 64 * k, 64 * k + 64));
        blocks.push(words);
        k += 1;
    }
    blocks
}

/// The twenty big-endian bytes of the five state words.
pub open spec fn state_bytes(h: Seq<u32>) -> Seq<u8> {
    Seq::new(20, |i: int| ((h[i / 4] >> ((24 - 8 * (i % 4)) as u32)) & 0xffu32) as u8)
}

/// The state words as twenty big-endian bytes.
pub fn sha1_arr(h: &[u32; 5]) -> (b: [u8; 20])
    ensures
        b@ == state_bytes(h@),
{
    let mut b: [u8; 20] = [0; 20];
    let mut i: usize = 0;
    while i < 20
        invariant
            i <= 20,
            forall|j: int| 0 <= j < i ==> #[trigger] b@[j] == state_bytes(h@)[j],
        decreases 20 - i,
    {
        let shift: u32 = 24 - 8 * ((i % 4) as u32);
        b[i] = ((h[i / 4] >> shift) & 0xffu32) as u8;
        i += 1;
    }
    assert(b@ =~= state_bytes(h@));
    b
}


// ---------------------------------------------------------------------------
// Laws: words and bytes as numbers
// ---------------------------------------------------------------------------

/// A block word is the big-endian value of its four bytes.
pub proof fn law_be_word_value(b: Seq<u8>, k: int)
    requires
        0 <= k,
        4 * k + 3 < b.len(),
    ensures
        be_word(b, k) as int == b[4 * k] as int * 0x100_0000 + b[4 * k + 1] as int * 0x1_0000
            + b[4 * k + 2] as int * 0x100 + b[4 * k + 3] as int,
{
    let b0 = b[4 * k];
    let b1 = b[4 * k + 1];
    let b2 = b[4 * k + 2];
    let b3 = b[4 * k + 3];
    assert(((b0 as u32) << 24u32) | ((b1 as u32) << 16u32) | ((b2 as u32) << 8u32) | (b3 as u32)
        == b0 as int * 0x100_0000 + b1 as int * 0x1_0000 + b2 as int * 0x100 + b3 as int)
        by (bit_vector);
}

/// Place value of byte `r` (0 to 3) of a big-endian word.
pub open spec fn word_byte_weight(r: int) -> int {
    if r == 0 {
        0x100_0000
    } else if r == 1 {
        0x1_0000
    } else if r == 2 {
        0x100
    } else {
        1
    }
}

/// The state bytes are the big-endian bytes of the state words.
pub proof fn law_state_bytes_value(h: Seq<u32>, i: int)
    requires
        0 <= i < 20,
    ensures
        state_bytes(h)[i] as int == (h[i / 4] as int / word_byte_weight(i % 4)) % 0x100,
{
    let x = h[i / 4];
    if i % 4 == 0 {
        assert(((x >> 24u32) & 0xffu32) as u8 == (x / 0x100_0000) % 0x100) by (bit_vector);
    } else if i % 4 == 1 {
        assert(((x >> 16u32) & 0xffu32) as u8 == (x / 0x1_0000) % 0x100) by (bit_vector);
    } else if i % 4 == 2 {
        assert(((x >> 8u32) & 0xffu32) as u8 == (x / 0x100) % 0x100) by (bit_vector);
    } else {
        assert(((x >> 0u32) & 0xffu32) as u8 == x % 0x100) by (bit_vector);
    }
}

/// Place value of byte `i` (0 to 7) of a big-endian 64-bit word.
pub open spec fn long_byte_weight(i: int) -> int
    decreases 7 - i,
{
    if i >= 7 {
        1
    } else {
        0x100 * long_byte_weight(i + 1)
    }
}

/// The bytes of a 64-bit word are its big-endian bytes.
pub proof fn law_be_bytes64_value(x: u64, i: int)
    requires
        0 <= i < 8,
    ensures
        be_bytes64(x)[i] as int == (x as int / long_byte_weight(i)) % 0x100,
{
    reveal_with_fuel(long_byte_weight, 8);
    if i == 0 {
        assert(((x >> 56u64) & 0xffu64) as u8 == (x / 0x100_0000_0000_0000) % 0x100) by (bit_vector);
    } else if i == 1 {
        assert(((x >> 48u64) & 0xffu64) as u8 == (x / 0x1_0000_0000_0000) % 0x100) by (bit_vector);
    } else if i == 2 {
        assert(((x >> 40u64) & 0xffu64) as u8 == (x / 0x100_0000_0000) % 0x100) by (bit_vector);
    } else if i == 3 {
        assert(((x >> 32u64) & 0xffu64) as u8 == (x / 0x1_0000_0000) % 0x100) by (bit_vector);
    } else if i == 4 {
        assert(((x >> 24u64) & 0xffu64) as u8 == (x / 0x100_0000) % 0x100) by (bit_vector);
    } else if i == 5 {
        assert(((x >> 16u64) & 0xffu64) as u8 == (x / 0x1_0000) % 0x100) by (bit_vector);
    } else if i == 6 {
        assert(((x >> 8u64) & 0xffu64) as u8 == (x / 0x100) % 0x100) by (bit_vector);
    } else {
        assert(((x >> 0u64) & 0xffu64) as u8 == x % 0x100) by (bit_vector);
    }
}

/// The length field is the message length in bits, modulo 2^64.
pub proof fn law_length_bits_value(total: nat)
    ensures
        length_bits(total) as int == (total * 8) % 0x1_0000_0000_0000_0000,
{
    let m: int = 0x2000_0000_0000_0000;
    let q = total as int / m;
    let r = total as int % m;
    assert(total as int == q * m + r);
    assert(total * 8 == q * 0x1_0000_0000_0000_0000 + r * 8) by (nonlinear_arith)
        requires
            total as int == q * m + r,
            m == 0x2000_0000_0000_0000,
    ;
    assert(0 <= r * 8 < 0x1_0000_0000_0000_0000);
    vstd::arithmetic::div_mod::lemma_mod_multiples_vanish(
        q,
        r * 8,
        0x1_0000_0000_0000_0000,
    );
    vstd::arithmetic::div_mod::lemma_small_mod((r * 8) as nat, 0x1_0000_0000_0000_0000);
}

/// The rotations that SHA-1 uses, as numbers: the bits shifted out on the left come
/// back on the right.
pub proof fn law_rotl_value(x: u32)
    ensures
        rotl_spec(x, 1) as int == (x as int * 2) % 0x1_0000_0000 + x as int / 0x8000_0000,
        rotl_spec(x, 5) as int == (x as int * 0x20) % 0x1_0000_0000 + x as int / 0x800_0000,
        rotl_spec(x, 30) as int == (x as int * 0x4000_0000) % 0x1_0000_0000 + x as int / 4,
{
    assert((x << 1u32) | (x >> 31u32) == (x * 2) % 0x1_0000_0000 + x / 0x8000_0000) by (bit_vector);
    assert((x << 5u32) | (x >> 27u32) == (x * 0x20) % 0x1_0000_0000 + x / 0x800_0000) by (bit_vector);
    assert((x << 30u32) | (x >> 2u32) == (x * 0x4000_0000) % 0x1_0000_0000 + x / 4) by (bit_vector);
}

} // verus!
