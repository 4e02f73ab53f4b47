pub mod nb_utils;
pub mod words;

use crate::text::push_char;
use crate::utils::sha::nb_utils::{constants_k_sha1, initial_state, k_spec, sha1_init};
use crate::utils::sha::words::{
    block_words, chunky, f_spec, nth_block, pad_suffix, padding, rotl, rotl_spec, sha1_arr,
    sha1f, state_bytes,
};
use vstd::prelude::*;
use vstd::slice::*;

verus! {

// ---------------------------------------------------------------------------
// SHA-1 as functions on words and bytes
// ---------------------------------------------------------------------------

/// Word `t` of the message schedule of a block of sixteen words.
pub open spec fn schedule(words: Seq<u32>, t: int) -> u32
    decreases t,
{
    if t < 16 {
        words[t]
    } else {
        rotl_spec(
            schedule(words, t - 3) ^ schedule(words, t - 8) ^ schedule(words, t - 14) ^ schedule(
                words,
                t - 16,
            ),
            1,
        )
    }
}

/// Sum of words modulo 2^32.
pub open spec fn add32(a: int, b: int) -> u32 {
    ((a + b) % 0x1_0000_0000) as u32
}

/// One round of the compression function, with schedule word `w`.
pub open spec fn round(s: Seq<u32>, w: u32, t: int) -> Seq<u32> {
    let temp = ((rotl_spec(s[0], 5) as int + f_spec(t, s[1], s[2], s[3]) as int + s[4] as int
        + w as int + k_spec(t) as int) % 0x1_0000_0000) as u32;
    seq![temp, s[0], rotl_spec(s[1], 30), s[2], s[3]]
}

/// The working words after the first `t` rounds on a block.
pub open spec fn rounds(h: Seq<u32>, words: Seq<u32>, t: int) -> Seq<u32>
    decreases t,
{
    if t <= 0 {
        h
    } else {
        round(rounds(h, words, t - 1), schedule(words, t - 1), t - 1)
    }
}

/// The state after one block: each word plus the matching word after eighty rounds.
pub open spec fn compress(h: Seq<u32>, words: Seq<u32>) -> Seq<u32> {
    let r = rounds(h, words, 80);
    Seq::new(5, |k: int| add32(h[k] as int, r[k] as int))
}

/// The state after the 64-byte blocks of `msg`, in order (a shorter rest is ignored).
pub open spec fn hash_blocks(h: Seq<u32>, msg: Seq<u8>) -> Seq<u32>
    decreases msg.len(),
{
    if msg.len() < 64 {
        h
    } else {
        hash_blocks(compress(h, block_words(msg.take(64))), msg.skip(64))
    }
}

/// The SHA-1 state words of a message.
pub open spec fn sha1_of(msg: Seq<u8>) -> Seq<u32> {
    hash_blocks(initial_state(), msg + pad_suffix(msg.len(), msg.len()))
}

/// Where the data held by a hasher is cut: all but the last chunk of at most 64 bytes.
pub open spec fn split_point(n: int) -> int {
    if n <= 0 {
        0
    } else {
        ((n - 1) / 64) * 64
    }
}

/// What a hasher holds: the state words, the number of bytes given to it, and
/// the bytes not hashed yet.
pub struct Sha1State {
    pub h: Seq<u32>,
    pub size: nat,
    pub leftover: Seq<u8>,
}

pub open spec fn initial_sha1_state() -> Sha1State {
    Sha1State { h: initial_state(), size: 0, leftover: Seq::empty() }
}

/// The hasher after `update` with `data`.
pub open spec fn update_state(st: Sha1State, data: Seq<u8>) -> Sha1State {
    let all = st.leftover + data;
    let c = split_point(all.len() as int);
    Sha1State { h: hash_blocks(st.h, all.take(c)), size: st.size + data.len(), leftover: all.skip(c) }
}

/// The hasher after `digest`: the held bytes, padded, are hashed into the state.
pub open spec fn digest_state(st: Sha1State) -> Sha1State {
    Sha1State {
        h: hash_blocks(st.h, st.leftover + pad_suffix(st.leftover.len(), st.size)),
        size: st.size,
        leftover: st.leftover,
    }
}

/// Number of bytes a hasher holds after it was given `n` bytes in all: the last
/// chunk of at most 64 bytes, none when `n` is zero.
pub open spec fn held_len(n: int) -> int {
    if n <= 0 {
        0
    } else {
        (n - 1) % 64 + 1
    }
}

/// A hasher that has been given exactly the bytes of `msg` since it was made or
/// cleared: it holds the last `held_len` bytes of `msg`, and its state words are
/// the compression of the 64-byte blocks before them, in order.
pub open spec fn absorbed(st: Sha1State, msg: Seq<u8>) -> bool {
    let c = msg.len() - held_len(msg.len() as int);
    &&& st.size == msg.len()
    &&& st.leftover.len() == held_len(msg.len() as int)
    &&& st.leftover == msg.skip(c)
    &&& st.h == hash_blocks(initial_state(), msg.take(c))
}

/// Lowercase hexadecimal digit.
pub open spec fn hex_char(d: int) -> char {
    if d < 10 {
        (d + '0' as int) as char
    } else {
        (d - 10 + 'a' as int) as char
    }
}

/// Eight hexadecimal digits of a word, most significant first.
pub open spec fn hex_word(x: u32) -> Seq<char> {
    Seq::new(8, |j: int| hex_char(((x >> ((28 - 4 * j) as u32)) & 0xfu32) as int))
}

/// Forty hexadecimal digits of the five state words.
pub open spec fn hex_digest(h: Seq<u32>) -> Seq<char> {
    Seq::new(40, |i: int| hex_word(h[i / 8])[i % 8])
}

/// The twenty state bytes, each as the character with that code.
pub open spec fn raw_digest(h: Seq<u32>) -> Seq<char> {
    Seq::new(20, |i: int| state_bytes(h)[i] as char)
}

// ---------------------------------------------------------------------------
// Laws
// ---------------------------------------------------------------------------

/// Each character of the raw digest has the code of the matching state byte.
pub proof fn law_raw_digest_codes(h: Seq<u32>, i: int)
    requires
        0 <= i < 20,
    ensures
        raw_digest(h)[i] as u32 == state_bytes(h)[i] as u32,
        raw_digest(h).len() == 20,
{
    let b = state_bytes(h)[i];
    vstd::utf8::char_u32_cast(b as char, (b as char) as u32);
}

proof fn lemma_hash_blocks_concat(h: Seq<u32>, a: Seq<u8>, b: Seq<u8>)
    requires
        a.len() % 64 == 0,
    ensures
        hash_blocks(h, a + b) == hash_blocks(hash_blocks(h, a), b),
    decreases a.len(),
{
    if a.len() > 0 {
        assert((a + b).take(64) =~= a.take(64));
        assert((a + b).skip(64) =~= a.skip(64) + b);
        lemma_hash_blocks_concat(compress(h, block_words(a.take(64))), a.skip(64), b);
    } else {
        assert(a + b =~= b);
    }
}

proof fn lemma_hash_one_more_block(h: Seq<u32>, msg: Seq<u8>, k: int)
    requires
        0 <= k,
        k % 64 == 0,
        k + 64 <= msg.len(),
    ensures
        hash_blocks(h, msg.take(k + 64)) == compress(
            hash_blocks(h, msg.take(k)),
            block_words(msg.subrange(k, k + 64)),
        ),
{
    let blk = msg.subrange(k, k + 64);
    assert(msg.take(k + 64) =~= msg.take(k) + blk);
    lemma_hash_blocks_concat(h, msg.take(k), blk);
    let hb = hash_blocks(h, msg.take(k));
    assert(blk.take(64) =~= blk);
    assert(hash_blocks(hb, blk) == hash_blocks(compress(hb, block_words(blk.take(64))), blk.skip(64)));
    assert(blk.skip(64).len() == 0);
}

/// A hasher holds at most one block of bytes after an update.
pub(crate) proof fn lemma_update_leftover(st: Sha1State, data: Seq<u8>)
    ensures
        update_state(st, data).leftover.len() <= 64,
{
    let n = (st.leftover + data).len() as int;
    if n > 0 {
        assert(n - ((n - 1) / 64) * 64 <= 64);
    }
}

/// A new or cleared hasher has been given no bytes.
pub proof fn law_initial_absorbed()
    ensures
        absorbed(initial_sha1_state(), Seq::empty()),
{
    assert(held_len(0) == 0);
    assert(Seq::<u8>::empty().skip(0) =~= Seq::<u8>::empty());
    assert(Seq::<u8>::empty().take(0) =~= Seq::<u8>::empty());
}

proof fn lemma_split_point_shift(c0: int, x: int)
    requires
        c0 >= 0,
        c0 % 64 == 0,
        x >= 1,
    ensures
        split_point(c0 + x) == c0 + split_point(x),
{
    assert((c0 + x - 1) / 64 == c0 / 64 + (x - 1) / 64);
}

proof fn lemma_split_point(n: int)
    requires
        n >= 0,
    ensures
        split_point(n) % 64 == 0,
        split_point(n) == n - held_len(n),
        n > 0 ==> 1 <= n - split_point(n) <= 64,
{
    if n > 0 {
        assert(((n - 1) / 64) * 64 + (n - 1) % 64 == n - 1);
    }
}

/// Giving the bytes of `data` to a hasher that holds `msg` makes it hold `msg + data`:
/// feeding a message in pieces is the same as feeding it at once.
pub proof fn law_update_absorbs(st: Sha1State, msg: Seq<u8>, data: Seq<u8>)
    requires
        absorbed(st, msg),
    ensures
        absorbed(update_state(st, data), msg + data),
{
    let n = msg.len() as int;
    lemma_split_point(n);
    let c0 = split_point(n);
    let all = st.leftover + data;
    let c = split_point(all.len() as int);
    lemma_split_point(all.len() as int);
    let m2 = msg + data;
    let st2 = update_state(st, data);
    lemma_split_point(m2.len() as int);
    if all.len() > 0 {
        lemma_split_point_shift(c0, all.len() as int);
    } else {
        assert(n == c0);
    }
    assert(split_point(m2.len() as int) == c0 + c);
    assert(m2.skip(c0) =~= all);
    assert(st2.leftover =~= m2.skip(c0 + c));
    assert(m2.take(c0 + c) =~= msg.take(c0) + all.take(c));
    lemma_hash_blocks_concat(initial_state(), msg.take(c0), all.take(c));
}

/// Giving `a` then `b` to a hasher leaves it as giving it `a + b` at once.
pub proof fn law_update_split(st: Sha1State, a: Seq<u8>, b: Seq<u8>)
    ensures
        update_state(update_state(st, a), b) == update_state(st, a + b),
{
    let all1 = st.leftover + a;
    let c1 = split_point(all1.len() as int);
    lemma_split_point(all1.len() as int);
    let st1 = update_state(st, a);
    let all2 = st1.leftover + b;
    let c2 = split_point(all2.len() as int);
    lemma_split_point(all2.len() as int);
    let all = st.leftover + (a + b);
    assert(all =~= all1 + b);
    assert(all.len() == c1 + all2.len());
    if all1.len() > 0 {
        lemma_split_point_shift(c1, all2.len() as int);
    } else if all2.len() > 0 {
        assert(c1 == 0);
    }
    let c = split_point(all.len() as int);
    assert(c == c1 + c2);
    assert(all.take(c) =~= all1.take(c1) + all2.take(c2));
    lemma_hash_blocks_concat(st.h, all1.take(c1), all2.take(c2));
    assert(all.skip(c) =~= all2.skip(c2));
    assert(st.size + (a + b).len() == st.size + a.len() + b.len());
}

/// The pieces one after the other.
pub open spec fn concat_all(pieces: Seq<Seq<u8>>) -> Seq<u8>
    decreases pieces.len(),
{
    if pieces.len() == 0 {
        Seq::empty()
    } else {
        concat_all(pieces.drop_last()) + pieces.last()
    }
}

/// The hasher after `update` with each piece, in order.
pub open spec fn update_all(st: Sha1State, pieces: Seq<Seq<u8>>) -> Sha1State
    decreases pieces.len(),
{
    if pieces.len() == 0 {
        st
    } else {
        update_state(update_all(st, pieces.drop_last()), pieces.last())
    }
}

/// A new or cleared hasher given the pieces by `update`, in order, holds their
/// concatenation, and its digest is the SHA-1 of that concatenation.
pub proof fn law_updates_then_digest(pieces: Seq<Seq<u8>>)
    ensures
        absorbed(update_all(initial_sha1_state(), pieces), concat_all(pieces)),
        digest_state(update_all(initial_sha1_state(), pieces)).h == sha1_of(concat_all(pieces)),
    decreases pieces.len(),
{
    if pieces.len() == 0 {
        law_initial_absorbed();
    } else {
        law_updates_then_digest(pieces.drop_last());
        law_update_absorbs(
            update_all(initial_sha1_state(), pieces.drop_last()),
            concat_all(pieces.drop_last()),
            pieces.last(),
        );
    }
    law_digest_is_sha1(update_all(initial_sha1_state(), pieces), concat_all(pieces));
}

/// The digest of a hasher that holds `msg` is the SHA-1 of `msg`.
pub proof fn law_digest_is_sha1(st: Sha1State, msg: Seq<u8>)
    requires
        absorbed(st, msg),
    ensures
        digest_state(st).h == sha1_of(msg),
{
    lemma_split_point(msg.len() as int);
    let c = msg.len() - st.leftover.len();
    let pad = pad_suffix(st.leftover.len(), st.size);
    assert(pad == pad_suffix(msg.len(), msg.len())) by {
        assert(st.leftover.len() % 64 == msg.len() % 64);
    }
    assert(msg + pad =~= msg.take(c) + (st.leftover + pad));
    lemma_hash_blocks_concat(initial_state(), msg.take(c), st.leftover + pad);
}

// ---------------------------------------------------------------------------
// The hasher
// ---------------------------------------------------------------------------

/// The message schedule of one block.
#[derive(Debug, Clone)]
pub struct BlockSHA1 {
    // 64 * 32 bits = 2048 bits
    sub_blocks: [u32; 80],
}

impl BlockSHA1 {
    /// The sixteen words of the block.
    pub closed spec fn words(&self) -> Seq<u32> {
        self.sub_blocks@.take(16)
    }

    /// Each of the eighty words is the schedule word of the block.
    pub closed spec fn wf(&self) -> bool {
        forall|t: int| 0 <= t < 80 ==> #[trigger] self.sub_blocks@[t] == schedule(self.words(), t)
    }

    fn new(data: &[u32; 16]) -> (b: BlockSHA1)
        ensures
            b.wf(),
            b.words() == data@,
    {
        let mut sub_blocks: [u32; 80] = [0; 80];
        let mut i: usize = 0;
        while i < 16
            invariant
                i <= 16,
                forall|j: int| 0 <= j < i ==> #[trigger] sub_blocks@[j] == schedule(data@, j),
            decreases 16 - i,
        {
            sub_blocks[i] = data[i];
            i += 1;
        }
        // 16 <= t < 80
        // W(t) = S^1(W(t-3) XOR W(t-8) XOR W(t-14) XOR W(t-16)).
        while i < 80
            invariant
                16 <= i <= 80,
                forall|j: int| 0 <= j < i ==> #[trigger] sub_blocks@[j] == schedule(data@, j),
            decreases 80 - i,
        {
            let tmp = sub_blocks[i - 3] ^ sub_blocks[i - 8] ^ sub_blocks[i - 14] ^ sub_blocks[i
                - 16];
            sub_blocks[i] = rotl(tmp, 1);
            i += 1;
        }
        let b = BlockSHA1 { sub_blocks };
        assert(b.words() =~= data@);
        b
    }

    fn process(&self, sha: &mut Sha1)
        requires
            self.wf(),
        ensures
            final(sha)@ == (Sha1State { h: compress(old(sha)@.h, self.words()), ..old(sha)@ }),
    {
        let ghost h0 = sha.variables@;
        let mut vu: [u32; 5] = sha.variables;
        let mut i: usize = 0;
        while i < 80
            invariant
                i <= 80,
                self.wf(),
                h0 == sha.variables@,
                vu@ == rounds(h0, self.words(), i as int),
            decreases 80 - i,
        {
            // TEMP = S^5(A) + f(t;B,C,D) + E + W(t) + K(t);
            let sum: u64 = rotl(vu[0], 5) as u64 + sha1f(i, vu[1], vu[2], vu[3]) as u64 + vu[4] as u64
                + self.sub_blocks[i] as u64 + constants_k_sha1(i) as u64;
            let temp = (sum % 0x1_0000_0000) as u32;
            vu[4] = vu[3];
            vu[3] = vu[2];
            vu[2] = vu[1];
            vu[1] = vu[0];
            vu[2] = rotl(vu[2], 30);
            vu[0] = temp;
            assert(vu@ =~= rounds(h0, self.words(), i + 1));
            i += 1;
        }
        let mut k: usize = 0;
        while k < 5
            invariant
                k <= 5,
                vu@ == rounds(h0, self.words(), 80),
                forall|j: int| k <= j < 5 ==> #[trigger] sha.variables@[j] == h0[j],
                forall|j: int| 0 <= j < k ==> #[trigger] sha.variables@[j] == compress(h0, self.words())[j],
                sha.size == old(sha).size,
                sha.leftover@ == old(sha).leftover@,
                h0 == old(sha).variables@,
            decreases 5 - k,
        {
            sha.variables[k] = ((sha.variables[k] as u64 + vu[k] as u64) % 0x1_0000_0000) as u32;
            k += 1;
        }
        assert(sha.variables@ =~= compress(h0, self.words()));
    }
}

/// An incremental SHA-1 hasher.
#[derive(Debug, Clone)]
pub struct Sha1 {
    variables: [u32; 5],  // [a,b,c,d,e] in FIPS 180-1
    pub size: usize,  // the number of bytes given to the hasher
    leftover: Vec<u8>,
}

impl View for Sha1 {
    type V = Sha1State;

    closed spec fn view(&self) -> Sha1State {
        Sha1State { h: self.variables@, size: self.size as nat, leftover: self.leftover@ }
    }
}

impl Sha1 {
    pub fn new() -> (s: Sha1)
        ensures
            s@ == initial_sha1_state(),
    {
        let size: usize = 0;
        let variables = sha1_init();
        let leftover = Vec::new();
        Sha1 { variables, size, leftover }
    }

    /// The number of bytes given to the hasher since it was made or cleared.
    pub fn size(&self) -> (n: usize)
        ensures
            n == self@.size,
    {
        self.size
    }

    /// Gives `data` to the hasher: every complete block but the last chunk of the
    /// held bytes is hashed, the rest is held.
    pub fn update(&mut self, data: &[u8])
        requires
            old(self)@.size + data@.len() <= usize::MAX,
        ensures
            final(self)@ == update_state(old(self)@, data@),
    {
        let ghost st = self@;
        self.size = self.size + data.len();
        let mut all: Vec<u8> = Vec::new();
        let mut i: usize = 0;
        while i < self.leftover.len()
            invariant
                i <= self.leftover@.len(),
                self.leftover@ == st.leftover,
                all@ == st.leftover.take(i as int),
            decreases self.leftover@.len() - i,
        {
            all.push(self.leftover[i]);
            assert(all@ =~= st.leftover.take(i + 1));
            i += 1;
        }
        assert(st.leftover.take(i as int) =~= st.leftover);
        let mut j: usize = 0;
        while j < data.len()
            invariant
                j <= data@.len(),
                all@ == st.leftover + data@.take(j as int),
            decreases data@.len() - j,
        {
            all.push(data[j]);
            assert(all@ =~= st.leftover + data@.take(j + 1));
            j += 1;
        }
        assert(data@.take(j as int) =~= data@);
        let ghost all_s = all@;
        let n = all.len();
        let cut: usize = if n == 0 {
            0
        } else {
            ((n - 1) / 64) * 64
        };
        assert(cut == split_point(n as int));
        assert(cut % 64 == 0 && cut <= n);
        assert(all_s.take(0) =~= Seq::<u8>::empty());
        let mut k: usize = 0;
        while k < cut
            invariant
                k <= cut <= n == all_s.len(),
                k % 64 == 0,
                cut % 64 == 0,
                all@ == all_s,
                self.variables@ == hash_blocks(st.h, all_s.take(k as int)),
                self.size == st.size + data@.len(),
            decreases cut - k,
        {
            let words = chunky(slice_subrange(all.as_slice(), k, k + 64));
            let block = BlockSHA1::new(&words);
            block.process(self);
            proof {
                lemma_hash_one_more_block(st.h, all_s, k as int);
            }
            k += 64;
        }
        let mut rest: Vec<u8> = Vec::new();
        let mut m: usize = cut;
        while m < n
            invariant
                cut <= m <= n == all_s.len(),
                all@ == all_s,
                rest@ == all_s.subrange(cut as int, m as int),
            decreases n - m,
        {
            rest.push(all[m]);
            assert(rest@ =~= all_s.subrange(cut as int, m + 1));
            m += 1;
        }
        self.leftover = rest;
        assert(self.leftover@ =~= all_s.skip(cut as int));
    }

    /// Pads the held bytes and hashes them into the state.
    pub fn digest(&mut self)
        requires
            old(self)@.leftover.len() + 72 <= usize::MAX,
        ensures
            final(self)@ == digest_state(old(self)@),
    {
        let ghost st = self@;
        let blocks = padding(&self.leftover, self.size);
        let ghost padded = st.leftover + pad_suffix(st.leftover.len(), st.size);
        assert(padded.take(0) =~= Seq::<u8>::empty());
        let mut k: usize = 0;
        while k < blocks.len()
            invariant
                k <= blocks@.len(),
                blocks@.len() * 64 == padded.len(),
                forall|j: int|
                    0 <= j < blocks@.len() ==> #[trigger] blocks@[j]@ == nth_block(padded, j),
                self.variables@ == hash_blocks(st.h, padded.take(64 * k)),
                self.size == st.size,
                self.leftover@ == st.leftover,
            decreases blocks@.len() - k,
        {
            let block = BlockSHA1::new(&blocks[k]);
            block.process(self);
            proof {
                assert(64 * k + 64 <= padded.len()) by (nonlinear_arith)
                    requires
                        k < blocks@.len(),
                        blocks@.len() * 64 == padded.len(),
                ;
                lemma_hash_one_more_block(st.h, padded, 64 * k);
            }
            k += 1;
        }
        assert(padded.take(64 * k) =~= padded);
    }

    /// Forgets everything given: the hasher is as new.
    pub fn clear(&mut self)
        ensures
            final(self)@ == initial_sha1_state(),
    {
        self.size = 0;
        self.variables = sha1_init();
        self.leftover = Vec::new();
    }

    /// The state words in lowercase hexadecimal, eight digits each.
    pub fn digest_string(&self) -> (s: String)
        ensures
            s@ == hex_digest(self@.h),
    {
        let mut s = String::new();
        let mut i: usize = 0;
        while i < 5
            invariant
                i <= 5,
                s@ == hex_digest(self@.h).take(8 * i),
            decreases 5 - i,
        {
            let x = self.variables[i];
            let mut j: usize = 0;
            while j < 8
                invariant
                    i < 5,
                    j <= 8,
                    x == self@.h[i as int],
                    s@ == hex_digest(self@.h).take(8 * i + j),
                decreases 8 - j,
            {
                let shift: u32 = 28 - 4 * (j as u32);
                let d: u32 = (x >> shift) & 0xfu32;
                assert(d < 16) by (bit_vector)
                    requires
                        d == (x >> shift) & 0xfu32,
                ;
                let c: char = if d < 10 {
                    ((d as u8) + 48u8) as char
                } else {
                    ((d as u8) - 10 + 97u8) as char
                };
                push_char(&mut s, c);
                proof {
                    let idx = 8 * i + j;
                    assert(idx / 8 == i && idx % 8 == j);
                    assert(hex_digest(self@.h)[idx] == c);
                    assert(s@ =~= hex_digest(self@.h).take(8 * i + j + 1));
                }
                j += 1;
            }
            i += 1;
        }
        assert(hex_digest(self@.h).take(40) =~= hex_digest(self@.h));
        s
    }

    /// The twenty state bytes, each as the character with that code.
    pub fn digest_raw(&self) -> (s: String)
        ensures
            s@ == raw_digest(self@.h),
    {
        let bytes = sha1_arr(&self.variables);
        let mut s = String::new();
        let mut i: usize = 0;
        while i < 20
            invariant
                i <= 20,
                bytes@ == state_bytes(self@.h),
                s@ == raw_digest(self@.h).take(i as int),
            decreases 20 - i,
        {
            push_char(&mut s, bytes[i] as char);
            assert(s@ =~= raw_digest(self@.h).take(i + 1));
            i += 1;
        }
        assert(raw_digest(self@.h).take(20) =~= raw_digest(self@.h));
        s
    }
}

} // verus!
