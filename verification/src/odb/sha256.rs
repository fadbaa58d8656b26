//! SHA-256 (FIPS 180-4), the function that names an object by its content.

use vstd::prelude::*;

verus! {

/// The first 32 bits of the fractional parts of the cube roots of the first
/// 64 primes.
pub const ROUND_CONSTANTS: [u32; 64] = [
    0x428a2f98, 0x71374491, 0xb5c0fbcf, 0xe9b5dba5, 0x3956c25b, 0x59f111f1, 0x923f82a4, 0xab1c5ed5,
    0xd807aa98, 0x12835b01, 0x243185be, 0x550c7dc3, 0x72be5d74, 0x80deb1fe, 0x9bdc06a7, 0xc19bf174,
    0xe49b69c1, 0xefbe4786, 0x0fc19dc6, 0x240ca1cc, 0x2de92c6f, 0x4a7484aa, 0x5cb0a9dc, 0x76f988da,
    0x983e5152, 0xa831c66d, 0xb00327c8, 0xbf597fc7, 0xc6e00bf3, 0xd5a79147, 0x06ca6351, 0x14292967,
    0x27b70a85, 0x2e1b2138, 0x4d2c6dfc, 0x53380d13, 0x650a7354, 0x766a0abb, 0x81c2c92e, 0x92722c85,
    0xa2bfe8a1, 0xa81a664b, 0xc24b8b70, 0xc76c51a3, 0xd192e819, 0xd6990624, 0xf40e3585, 0x106aa070,
    0x19a4c116, 0x1e376c08, 0x2748774c, 0x34b0bcb5, 0x391c0cb3, 0x4ed8aa4a, 0x5b9cca4f, 0x682e6ff3,
    0x748f82ee, 0x78a5636f, 0x84c87814, 0x8cc70208, 0x90befffa, 0xa4506ceb, 0xbef9a3f7, 0xc67178f2,
];

/// `x` rotated right by `n` bits.
#[verifier::allow_in_spec]
pub fn rotr(x: u32, n: u32) -> u32
    requires
        0 < n < 32,
    returns
        (x >> n) | (x << ((32 - n) as u32)),
{
    (x >> n) | (x << (32 - n))
}

/// Each bit of `y` where `x` has a one, of `z` where it has a zero.
#[verifier::allow_in_spec]
pub fn choose_bits(x: u32, y: u32, z: u32) -> u32
    returns
        (x & y) ^ (!x & z),
{
    (x & y) ^ (!x & z)
}

/// Each bit as the majority of `x`, `y` and `z` has it.
#[verifier::allow_in_spec]
pub fn majority(x: u32, y: u32, z: u32) -> u32
    returns
        (x & y) ^ (x & z) ^ (y & z),
{
    (x & y) ^ (x & z) ^ (y & z)
}

/// The function that FIPS 180-4 writes as a capital sigma with index 0.
#[verifier::allow_in_spec]
pub fn big_sigma0(x: u32) -> u32
    returns
        rotr(x, 2) ^ rotr(x, 13) ^ rotr(x, 22),
{
    rotr(x, 2) ^ rotr(x, 13) ^ rotr(x, 22)
}

/// The function that FIPS 180-4 writes as a capital sigma with index 1.
#[verifier::allow_in_spec]
pub fn big_sigma1(x: u32) -> u32
    returns
        rotr(x, 6) ^ rotr(x, 11) ^ rotr(x, 25),
{
    rotr(x, 6) ^ rotr(x, 11) ^ rotr(x, 25)
}

/// The function that FIPS 180-4 writes as a small sigma with index 0.
#[verifier::allow_in_spec]
pub fn small_sigma0(x: u32) -> u32
    returns
        rotr(x, 7) ^ rotr(x, 18) ^ (x >> 3u32),
{
    rotr(x, 7) ^ rotr(x, 18) ^ (x >> 3u32)
}

/// The function that FIPS 180-4 writes as a small sigma with index 1.
#[verifier::allow_in_spec]
pub fn small_sigma1(x: u32) -> u32
    returns
        rotr(x, 17) ^ rotr(x, 19) ^ (x >> 10u32),
{
    rotr(x, 17) ^ rotr(x, 19) ^ (x >> 10u32)
}

/// The word that four bytes spell, the most significant byte first.
#[verifier::allow_in_spec]
pub fn word_of(b0: u8, b1: u8, b2: u8, b3: u8) -> u32
    returns
        ((b0 as u32) << 24u32) | ((b1 as u32) << 16u32) | ((b2 as u32) << 8u32) | (b3 as u32),
{
    ((b0 as u32) << 24u32) | ((b1 as u32) << 16u32) | ((b2 as u32) << 8u32) | (b3 as u32)
}

/// The eight working words of the hash.
#[derive(Clone, Copy, Debug)]
pub struct Registers {
    pub a: u32,
    pub b: u32,
    pub c: u32,
    pub d: u32,
    pub e: u32,
    pub f: u32,
    pub g: u32,
    pub h: u32,
}

/// The registers before the first block: the first 32 bits of the
/// fractional parts of the square roots of the first eight primes.
#[verifier::allow_in_spec]
pub fn initial_registers() -> Registers
    returns
        (Registers {
            a: 0x6a09e667,
            b: 0xbb67ae85,
            c: 0x3c6ef372,
            d: 0xa54ff53a,
            e: 0x510e527f,
            f: 0x9b05688c,
            g: 0x1f83d9ab,
            h: 0x5be0cd19,
        }),
{
    Registers {
        a: 0x6a09e667,
        b: 0xbb67ae85,
        c: 0x3c6ef372,
        d: 0xa54ff53a,
        e: 0x510e527f,
        f: 0x9b05688c,
        g: 0x1f83d9ab,
        h: 0x5be0cd19,
    }
}

/// One round of the compression: the registers after it, from the
/// registers before it, the round's constant and the round's message word.
#[verifier::allow_in_spec]
pub fn round(r: Registers, k: u32, w: u32) -> Registers
    returns
        ({
            let t1 = r.h.wrapping_add(big_sigma1(r.e)).wrapping_add(
                choose_bits(r.e, r.f, r.g),
            ).wrapping_add(k).wrapping_add(w);
            let t2 = big_sigma0(r.a).wrapping_add(majority(r.a, r.b, r.c));
            Registers {
                a: t1.wrapping_add(t2),
                b: r.a,
                c: r.b,
                d: r.c,
                e: r.d.wrapping_add(t1),
                f: r.e,
                g: r.f,
                h: r.g,
            }
        }),
{
    let t1 = r.h.wrapping_add(big_sigma1(r.e)).wrapping_add(
        choose_bits(r.e, r.f, r.g),
    ).wrapping_add(k).wrapping_add(w);
    let t2 = big_sigma0(r.a).wrapping_add(majority(r.a, r.b, r.c));
    Registers {
        a: t1.wrapping_add(t2),
        b: r.a,
        c: r.b,
        d: r.c,
        e: r.d.wrapping_add(t1),
        f: r.e,
        g: r.f,
        h: r.g,
    }
}

/// The registers word by word added, modulo 2^32.
#[verifier::allow_in_spec]
pub fn add_registers(r: Registers, s: Registers) -> Registers
    returns
        (Registers {
            a: r.a.wrapping_add(s.a),
            b: r.b.wrapping_add(s.b),
            c: r.c.wrapping_add(s.c),
            d: r.d.wrapping_add(s.d),
            e: r.e.wrapping_add(s.e),
            f: r.f.wrapping_add(s.f),
            g: r.g.wrapping_add(s.g),
            h: r.h.wrapping_add(s.h),
        }),
{
    Registers {
        a: r.a.wrapping_add(s.a),
        b: r.b.wrapping_add(s.b),
        c: r.c.wrapping_add(s.c),
        d: r.d.wrapping_add(s.d),
        e: r.e.wrapping_add(s.e),
        f: r.f.wrapping_add(s.f),
        g: r.g.wrapping_add(s.g),
        h: r.h.wrapping_add(s.h),
    }
}

/// Word `t` of the message schedule of a block of 64 bytes: the block's own
/// sixteen words, then each word from four earlier ones.
pub open spec fn schedule(block: Seq<u8>, t: nat) -> u32
    decreases t,
{
    if t < 16 {
        let at = 4 * (t as int);
        word_of(block[at], block[at + 1], block[at + 2], block[at + 3])
    } else {
        small_sigma1(schedule(block, (t - 2) as nat)).wrapping_add(
            schedule(block, (t - 7) as nat),
        ).wrapping_add(small_sigma0(schedule(block, (t - 15) as nat))).wrapping_add(
            schedule(block, (t - 16) as nat),
        )
    }
}

/// The registers after the first `n` rounds on a block.
pub open spec fn rounds(r: Registers, block: Seq<u8>, n: nat) -> Registers
    decreases n,
{
    if n == 0 {
        r
    } else {
        round(
            rounds(r, block, (n - 1) as nat),
            ROUND_CONSTANTS[(n - 1) as int],
            schedule(block, (n - 1) as nat),
        )
    }
}

/// The registers after a block of 64 bytes: the registers before it, plus
/// what the 64 rounds made of them.
pub open spec fn compress(r: Registers, block: Seq<u8>) -> Registers {
    add_registers(r, rounds(r, block, 64))
}

/// The number of zero bytes in the padding of a message of `len` bytes.
pub open spec fn zero_fill(len: nat) -> nat {
    ((119 - len % 64) % 64) as nat
}

/// The eight bytes of `bits`, the most significant first.
pub open spec fn length_bytes(bits: u64) -> Seq<u8> {
    Seq::new(8, |i: int| ((bits >> ((56 - 8 * i) as u64)) & 0xff) as u8)
}

/// What is appended to a message of `len` bytes: one byte 0x80, zero bytes
/// up to eight short of a multiple of 64, and the length in bits.
pub open spec fn padding(len: nat) -> Seq<u8> {
    seq![0x80u8] + Seq::new(zero_fill(len), |i: int| 0u8) + length_bytes((8 * len) as u64)
}

/// The registers after the first `n` blocks of `data`.
pub open spec fn absorb(data: Seq<u8>, n: nat) -> Registers
    decreases n,
{
    if n == 0 {
        initial_registers()
    } else {
        compress(absorb(data, (n - 1) as nat), data.subrange(64 * (n - 1), 64 * (n as int)))
    }
}

/// The four bytes of a word, the most significant first.
pub open spec fn word_bytes(w: u32) -> Seq<u8> {
    seq![
        ((w >> 24u32) & 0xff) as u8,
        ((w >> 16u32) & 0xff) as u8,
        ((w >> 8u32) & 0xff) as u8,
        (w & 0xff) as u8,
    ]
}

/// The 32 bytes of the registers, `a` first.
pub open spec fn registers_bytes(r: Registers) -> Seq<u8> {
    word_bytes(r.a) + word_bytes(r.b) + word_bytes(r.c) + word_bytes(r.d) + word_bytes(r.e)
        + word_bytes(r.f) + word_bytes(r.g) + word_bytes(r.h)
}

/// The greatest length in bytes of a message whose length in bits fits the
/// 64 bits that the padding has for it.
pub const MAX_MESSAGE_BYTES: u64 = 0x1fff_ffff_ffff_ffff;

/// The SHA-256 digest of a message of at most [`MAX_MESSAGE_BYTES`] bytes.
pub open spec fn sha256(message: Seq<u8>) -> Seq<u8> {
    let data = message + padding(message.len());
    registers_bytes(absorb(data, data.len() / 64))
}

/// Run the compression on one block of 64 bytes.
pub fn compress_block(r: Registers, block: &[u8]) -> (out: Registers)
    requires
        block@.len() == 64,
    ensures
        out == compress(r, block@),
{
    let mut w: Vec<u32> = Vec::with_capacity(64);
    let mut t: usize = 0;
    while t < 64
        invariant
            t <= 64,
            block@.len() == 64,
            w@.len() == t,
            forall|j: int| 0 <= j < t ==> w@[j] == schedule(block@, j as nat),
        decreases 64 - t,
    {
        let x: u32 = if t < 16 {
            word_of(block[4 * t], block[4 * t + 1], block[4 * t + 2], block[4 * t + 3])
        } else {
            small_sigma1(w[t - 2]).wrapping_add(w[t - 7]).wrapping_add(
                small_sigma0(w[t - 15]),
            ).wrapping_add(w[t - 16])
        };
        w.push(x);
        t += 1;
    }
    let mut s = r;
    let mut t: usize = 0;
    while t < 64
        invariant
            t <= 64,
            w@.len() == 64,
            forall|j: int| 0 <= j < 64 ==> w@[j] == schedule(block@, j as nat),
            s == rounds(r, block@, t as nat),
        decreases 64 - t,
    {
        s = round(s, ROUND_CONSTANTS[t], w[t]);
        t += 1;
    }
    add_registers(r, s)
}

/// The end of the padded message: the bytes of `message` behind its last
/// whole block, and the padding. It is one block long, or two.
fn last_blocks(message: &[u8]) -> (tail: Vec<u8>)
    requires
        message@.len() <= MAX_MESSAGE_BYTES,
    ensures
        tail@ == (message@ + padding(message@.len())).subrange(
            64 * (message@.len() as int / 64),
            (message@.len() + padding(message@.len()).len()) as int,
        ),
        tail@.len() == 64 || tail@.len() == 128,
        (message@.len() + padding(message@.len()).len()) % 64 == 0,
{
    let n = message.len();
    let rem: usize = n % 64;
    let start: usize = n - rem;
    let ghost rest = message@.subrange(start as int, n as int);
    let mut tail: Vec<u8> = Vec::with_capacity(128);
    let mut i: usize = start;
    while i < n
        invariant
            start <= i <= n,
            n == message@.len(),
            tail@ == message@.subrange(start as int, i as int),
        decreases n - i,
    {
        tail.push(message[i]);
        assert(message@.subrange(start as int, i + 1) =~= message@.subrange(
            start as int,
            i as int,
        ).push(message@[i as int]));
        i += 1;
    }
    tail.push(0x80);
    let zeros: usize = (119 - rem) % 64;
    let mut z: usize = 0;
    while z < zeros
        invariant
            z <= zeros,
            tail@ == rest + seq![0x80u8] + Seq::new(z as nat, |i: int| 0u8),
        decreases zeros - z,
    {
        tail.push(0);
        assert(Seq::new((z + 1) as nat, |i: int| 0u8) =~= Seq::new(z as nat, |i: int| 0u8).push(
            0u8,
        ));
        z += 1;
    }
    let bits: u64 = (n as u64) * 8;
    let ghost front = rest + seq![0x80u8] + Seq::new(zeros as nat, |i: int| 0u8);
    let mut b: usize = 0;
    while b < 8
        invariant
            b <= 8,
            tail@ == front + length_bytes(bits).take(b as int),
        decreases 8 - b,
    {
        let shift: u64 = 56 - 8 * (b as u64);
        let low: u64 = (bits >> shift) & 0xff;
        assert(low < 256) by (bit_vector)
            requires
                low == (bits >> shift) & 0xff,
        ;
        tail.push(low as u8);
        assert(length_bytes(bits).take(b + 1) =~= length_bytes(bits).take(b as int).push(
            length_bytes(bits)[b as int],
        ));
        b += 1;
    }
    proof {
        assert(length_bytes(bits).take(8) =~= length_bytes(bits));
        assert(zeros == zero_fill(n as nat));
        assert(bits == (8 * n) as u64);
        assert(tail@ =~= (message@ + padding(n as nat)).subrange(
            start as int,
            n + padding(n as nat).len(),
        ));
    }
    tail
}

/// Append the four bytes of `w` to `out`, the most significant first.
fn push_word(out: &mut Vec<u8>, w: u32)
    ensures
        final(out)@ == old(out)@ + word_bytes(w),
{
    let b0: u32 = (w >> 24u32) & 0xff;
    let b1: u32 = (w >> 16u32) & 0xff;
    let b2: u32 = (w >> 8u32) & 0xff;
    let b3: u32 = w & 0xff;
    assert(b0 < 256 && b1 < 256 && b2 < 256 && b3 < 256) by (bit_vector)
        requires
            b0 == (w >> 24u32) & 0xff,
            b1 == (w >> 16u32) & 0xff,
            b2 == (w >> 8u32) & 0xff,
            b3 == w & 0xff,
    ;
    out.push(b0 as u8);
    out.push(b1 as u8);
    out.push(b2 as u8);
    out.push(b3 as u8);
    assert(out@ =~= old(out)@ + word_bytes(w));
}

/// The SHA-256 digest of `message`: 32 bytes.
pub fn digest(message: &[u8]) -> (out: Vec<u8>)
    requires
        message@.len() <= MAX_MESSAGE_BYTES,
    ensures
        out@ == sha256(message@),
        out@.len() == 32,
{
    let n = message.len();
    let full: usize = n / 64;
    let ghost data = message@ + padding(n as nat);
    let mut r = initial_registers();
    let mut i: usize = 0;
    while i < full
        invariant
            i <= full,
            full == n / 64,
            n == message@.len(),
            data == message@ + padding(n as nat),
            r == absorb(data, i as nat),
        decreases full - i,
    {
        let block = vstd::slice::slice_subrange(message, 64 * i, 64 * i + 64);
        assert(block@ =~= data.subrange(64 * i, 64 * (i + 1)));
        r = compress_block(r, block);
        i += 1;
    }
    let tail = last_blocks(message);
    let blocks: usize = tail.len() / 64;
    let mut j: usize = 0;
    while j < blocks
        invariant
            j <= blocks,
            blocks * 64 == tail@.len(),
            full == n / 64,
            n == message@.len(),
            data == message@ + padding(n as nat),
            tail@ == data.subrange(64 * full, data.len() as int),
            r == absorb(data, (full + j) as nat),
        decreases blocks - j,
    {
        let block = vstd::slice::slice_subrange(tail.as_slice(), 64 * j, 64 * j + 64);
        assert(block@ =~= data.subrange(64 * (full + j), 64 * (full + j + 1)));
        r = compress_block(r, block);
        j += 1;
    }
    assert(full + blocks == data.len() / 64);
    let mut out: Vec<u8> = Vec::with_capacity(32);
    push_word(&mut out, r.a);
    push_word(&mut out, r.b);
    push_word(&mut out, r.c);
    push_word(&mut out, r.d);
    push_word(&mut out, r.e);
    push_word(&mut out, r.f);
    push_word(&mut out, r.g);
    push_word(&mut out, r.h);
    out
}

} // verus!
