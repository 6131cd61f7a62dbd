//! SHA-256, as FIPS 180-4 defines it.
//!
//! One agent names a project's directory by the hash of its path, so a path has to
//! be hashed to be found again.
use vstd::prelude::*;

verus! {

/// The first 32 bits of the fractional parts of the cube roots of the first 64
/// primes.
pub const K: [u32; 64] = [
    0x428a2f98, 0x71374491, 0xb5c0fbcf, 0xe9b5dba5, 0x3956c25b, 0x59f111f1, 0x923f82a4, 0xab1c5ed5,
    0xd807aa98, 0x12835b01, 0x243185be, 0x550c7dc3, 0x72be5d74, 0x80deb1fe, 0x9bdc06a7, 0xc19bf174,
    0xe49b69c1, 0xefbe4786, 0x0fc19dc6, 0x240ca1cc, 0x2de92c6f, 0x4a7484aa, 0x5cb0a9dc, 0x76f988da,
    0x983e5152, 0xa831c66d, 0xb00327c8, 0xbf597fc7, 0xc6e00bf3, 0xd5a79147, 0x06ca6351, 0x14292967,
    0x27b70a85, 0x2e1b2138, 0x4d2c6dfc, 0x53380d13, 0x650a7354, 0x766a0abb, 0x81c2c92e, 0x92722c85,
    0xa2bfe8a1, 0xa81a664b, 0xc24b8b70, 0xc76c51a3, 0xd192e819, 0xd6990624, 0xf40e3585, 0x106aa070,
    0x19a4c116, 0x1e376c08, 0x2748774c, 0x34b0bcb5, 0x391c0cb3, 0x4ed8aa4a, 0x5b9cca4f, 0x682e6ff3,
    0x748f82ee, 0x78a5636f, 0x84c87814, 0x8cc70208, 0x90befffa, 0xa4506ceb, 0xbef9a3f7, 0xc67178f2,
];

/// The working variables, and the hash value between two blocks.
#[derive(Clone, Copy)]
pub struct Words {
    pub a: u32,
    pub b: u32,
    pub c: u32,
    pub d: u32,
    pub e: u32,
    pub f: u32,
    pub g: u32,
    pub h: u32,
}

/// The first 32 bits of the fractional parts of the square roots of the first eight
/// primes.
pub open spec fn initial() -> Words {
    Words {
        a: 0x6a09e667,
        b: 0xbb67ae85,
        c: 0x3c6ef372,
        d: 0xa54ff53a,
        e: 0x510e527f,
        f: 0x9b05688c,
        g: 0x1f83d9ab,
        h: 0x5be0cd19,
    }
}

/// Addition modulo two to the thirty-second.
pub open spec fn sum(x: u32, y: u32) -> u32 {
    ((x + y) % 0x1_0000_0000) as u32
}

pub open spec fn rotated(x: u32, n: u32) -> u32 {
    (x >> n) | (x << ((32 - n) as u32))
}

pub open spec fn big_sigma0(x: u32) -> u32 {
    rotated(x, 2) ^ rotated(x, 13) ^ rotated(x, 22)
}

pub open spec fn big_sigma1(x: u32) -> u32 {
    rotated(x, 6) ^ rotated(x, 11) ^ rotated(x, 25)
}

pub open spec fn small_sigma0(x: u32) -> u32 {
    rotated(x, 7) ^ rotated(x, 18) ^ (x >> 3u32)
}

pub open spec fn small_sigma1(x: u32) -> u32 {
    rotated(x, 17) ^ rotated(x, 19) ^ (x >> 10u32)
}

pub open spec fn choice(x: u32, y: u32, z: u32) -> u32 {
    (x & y) ^ (!x & z)
}

pub open spec fn majority(x: u32, y: u32, z: u32) -> u32 {
    (x & y) ^ (x & z) ^ (y & z)
}

/// How many blocks of 64 bytes a message of `n` makes, with the one bit behind it
/// and its length in the last eight bytes.
pub open spec fn blocks(n: nat) -> int {
    (n as int + 72) / 64
}

/// The message's length in bits.
pub open spec fn bit_length(m: Seq<u8>) -> u64 {
    ((m.len() * 8) % 0x1_0000_0000_0000_0000) as u64
}

/// A byte of the padded message.
pub open spec fn padded(m: Seq<u8>, p: int) -> u8 {
    let tail = 64 * blocks(m.len()) - 8;
    if p < m.len() {
        m[p]
    } else if p == m.len() {
        0x80
    } else if p < tail {
        0
    } else {
        ((bit_length(m) >> ((56 - 8 * (p - tail)) as u64)) & 0xff) as u8
    }
}

/// A word of the padded message, its first byte the highest.
pub open spec fn word(m: Seq<u8>, p: int) -> u32 {
    ((padded(m, p) as u32) << 24u32) | ((padded(m, p + 1) as u32) << 16u32) | ((padded(
        m,
        p + 2,
    ) as u32) << 8u32) | (padded(m, p + 3) as u32)
}

/// A word of a block's message schedule.
pub open spec fn schedule(m: Seq<u8>, block: int, t: int) -> u32
    decreases t,
{
    if t < 16 {
        word(m, 64 * block + 4 * t)
    } else {
        sum(
            sum(
                sum(small_sigma1(schedule(m, block, t - 2)), schedule(m, block, t - 7)),
                small_sigma0(schedule(m, block, t - 15)),
            ),
            schedule(m, block, t - 16),
        )
    }
}

pub open spec fn round(v: Words, k: u32, w: u32) -> Words {
    let t1 = sum(sum(sum(sum(v.h, big_sigma1(v.e)), choice(v.e, v.f, v.g)), k), w);
    let t2 = sum(big_sigma0(v.a), majority(v.a, v.b, v.c));
    Words { a: sum(t1, t2), b: v.a, c: v.b, d: v.c, e: sum(v.d, t1), f: v.e, g: v.f, h: v.g }
}

/// The working variables after `t` rounds on a block.
pub open spec fn rounds(v: Words, m: Seq<u8>, block: int, t: int) -> Words
    decreases t,
{
    if t <= 0 {
        v
    } else {
        round(rounds(v, m, block, t - 1), K@[t - 1], schedule(m, block, t - 1))
    }
}

pub open spec fn sums(x: Words, y: Words) -> Words {
    Words {
        a: sum(x.a, y.a),
        b: sum(x.b, y.b),
        c: sum(x.c, y.c),
        d: sum(x.d, y.d),
        e: sum(x.e, y.e),
        f: sum(x.f, y.f),
        g: sum(x.g, y.g),
        h: sum(x.h, y.h),
    }
}

/// The hash value after `n` blocks.
pub open spec fn hashed(m: Seq<u8>, n: int) -> Words
    decreases n,
{
    if n <= 0 {
        initial()
    } else {
        let v = hashed(m, n - 1);
        sums(v, rounds(v, m, n - 1, 64))
    }
}

pub open spec fn nibble(d: u32) -> char {
    if d == 0 {
        '0'
    } else if d == 1 {
        '1'
    } else if d == 2 {
        '2'
    } else if d == 3 {
        '3'
    } else if d == 4 {
        '4'
    } else if d == 5 {
        '5'
    } else if d == 6 {
        '6'
    } else if d == 7 {
        '7'
    } else if d == 8 {
        '8'
    } else if d == 9 {
        '9'
    } else if d == 10 {
        'a'
    } else if d == 11 {
        'b'
    } else if d == 12 {
        'c'
    } else if d == 13 {
        'd'
    } else if d == 14 {
        'e'
    } else {
        'f'
    }
}

/// A word in eight hexadecimal digits.
pub open spec fn hex_word(x: u32) -> Seq<char> {
    Seq::new(8, |i: int| nibble((x >> ((28 - 4 * i) as u32)) & 0xf))
}

pub open spec fn hex_words(v: Words) -> Seq<char> {
    hex_word(v.a) + hex_word(v.b) + hex_word(v.c) + hex_word(v.d) + hex_word(v.e) + hex_word(v.f)
        + hex_word(v.g) + hex_word(v.h)
}

/// The hash of a message, in hexadecimal.
#[verifier::opaque]
pub open spec fn digest(m: Seq<u8>) -> Seq<char> {
    hex_words(hashed(m, blocks(m.len())))
}

fn plus(x: u32, y: u32) -> (r: u32)
    ensures
        r == sum(x, y),
{
    x.wrapping_add(y)
}

fn rotate(x: u32, n: u32) -> (r: u32)
    requires
        0 < n < 32,
    ensures
        r == rotated(x, n),
{
    (x >> n) | (x << (32 - n))
}

fn padded_byte(m: &[u8], p: u128) -> (r: u8)
    requires
        p < 64 * blocks(m@.len()),
    ensures
        r == padded(m@, p as int),
{
    let n: u128 = m.len() as u128;
    let count: u128 = (n + 72) / 64;
    let tail: u128 = 64 * count - 8;
    if p < n {
        m[p as usize]
    } else if p == n {
        0x80
    } else if p < tail {
        0
    } else {
        let bits: u64 = ((n * 8) % 0x1_0000_0000_0000_0000) as u64;
        let q: u64 = (p - tail) as u64;
        ((bits >> (56 - 8 * q)) & 0xff) as u8
    }
}

fn word_at(m: &[u8], p: u128) -> (r: u32)
    requires
        p + 4 <= 64 * blocks(m@.len()),
    ensures
        r == word(m@, p as int),
{
    assert(m@.len() == m.len());
    ((padded_byte(m, p) as u32) << 24u32) | ((padded_byte(m, p + 1) as u32) << 16u32) | ((
    padded_byte(m, p + 2) as u32) << 8u32) | (padded_byte(m, p + 3) as u32)
}

fn schedule_of(m: &[u8], block: u128) -> (r: Vec<u32>)
    requires
        block < blocks(m@.len()),
    ensures
        r@.len() == 64,
        forall|t: int| 0 <= t < 64 ==> #[trigger] r@[t] == schedule(m@, block as int, t),
{
    let mut w: Vec<u32> = Vec::new();
    let mut t: usize = 0;
    while t < 64
        invariant
            t <= 64,
            block < blocks(m@.len()),
            w@.len() == t,
            forall|i: int| 0 <= i < t ==> #[trigger] w@[i] == schedule(m@, block as int, i),
        decreases 64 - t,
    {
        assert(m@.len() == m.len());
        let x: u32 = if t < 16 {
            word_at(m, 64 * block + 4 * t as u128)
        } else {
            let y: u32 = w[t - 2];
            let z: u32 = w[t - 15];
            let s1: u32 = rotate(y, 17) ^ rotate(y, 19) ^ (y >> 10u32);
            let s0: u32 = rotate(z, 7) ^ rotate(z, 18) ^ (z >> 3u32);
            plus(plus(plus(s1, w[t - 7]), s0), w[t - 16])
        };
        w.push(x);
        t = t + 1;
    }
    w
}

fn one_round(v: Words, k: u32, w: u32) -> (r: Words)
    ensures
        r == round(v, k, w),
{
    let s1: u32 = rotate(v.e, 6) ^ rotate(v.e, 11) ^ rotate(v.e, 25);
    let ch: u32 = (v.e & v.f) ^ (!v.e & v.g);
    let t1: u32 = plus(plus(plus(plus(v.h, s1), ch), k), w);
    let s0: u32 = rotate(v.a, 2) ^ rotate(v.a, 13) ^ rotate(v.a, 22);
    let maj: u32 = (v.a & v.b) ^ (v.a & v.c) ^ (v.b & v.c);
    let t2: u32 = plus(s0, maj);
    Words { a: plus(t1, t2), b: v.a, c: v.b, d: v.c, e: plus(v.d, t1), f: v.e, g: v.f, h: v.g }
}

fn compressed(v: Words, m: &[u8], block: u128) -> (r: Words)
    requires
        block < blocks(m@.len()),
    ensures
        r == sums(v, rounds(v, m@, block as int, 64)),
{
    let w = schedule_of(m, block);
    let mut x = v;
    let mut t: usize = 0;
    while t < 64
        invariant
            t <= 64,
            w@.len() == 64,
            forall|i: int| 0 <= i < 64 ==> #[trigger] w@[i] == schedule(m@, block as int, i),
            x == rounds(v, m@, block as int, t as int),
        decreases 64 - t,
    {
        x = one_round(x, K[t], w[t]);
        t = t + 1;
    }
    Words {
        a: plus(v.a, x.a),
        b: plus(v.b, x.b),
        c: plus(v.c, x.c),
        d: plus(v.d, x.d),
        e: plus(v.e, x.e),
        f: plus(v.f, x.f),
        g: plus(v.g, x.g),
        h: plus(v.h, x.h),
    }
}

fn digit(d: u32) -> (r: char)
    ensures
        r == nibble(d),
{
    match d {
        0 => '0',
        1 => '1',
        2 => '2',
        3 => '3',
        4 => '4',
        5 => '5',
        6 => '6',
        7 => '7',
        8 => '8',
        9 => '9',
        10 => 'a',
        11 => 'b',
        12 => 'c',
        13 => 'd',
        14 => 'e',
        _ => 'f',
    }
}

fn push_word(out: &mut String, x: u32)
    ensures
        final(out)@ == old(out)@ + hex_word(x),
{
    let ghost was = out@;
    let mut i: u32 = 0;
    assert(out@ =~= was + hex_word(x).take(0));
    while i < 8
        invariant
            i <= 8,
            out@ == was + hex_word(x).take(i as int),
        decreases 8 - i,
    {
        let c = digit((x >> (28 - 4 * i)) & 0xf);
        out.push(c);
        assert(hex_word(x).take(i + 1) =~= hex_word(x).take(i as int).push(c));
        assert((was + hex_word(x).take(i as int)).push(c) =~= was + hex_word(x).take(i + 1));
        i = i + 1;
    }
    assert(hex_word(x).take(8) =~= hex_word(x));
}

/// The hash of a message, in hexadecimal.
pub fn hex(m: &[u8]) -> (r: String)
    ensures
        r@ == digest(m@),
{
    let count: u128 = (m.len() as u128 + 72) / 64;
    let mut v = Words {
        a: 0x6a09e667,
        b: 0xbb67ae85,
        c: 0x3c6ef372,
        d: 0xa54ff53a,
        e: 0x510e527f,
        f: 0x9b05688c,
        g: 0x1f83d9ab,
        h: 0x5be0cd19,
    };
    let mut n: u128 = 0;
    while n < count
        invariant
            n <= count == blocks(m@.len()),
            v == hashed(m@, n as int),
        decreases count - n,
    {
        v = compressed(v, m, n);
        n = n + 1;
    }
    proof {
        reveal(digest);
    }
    let mut out = String::new();
    push_word(&mut out, v.a);
    assert(out@ =~= hex_word(v.a));
    push_word(&mut out, v.b);
    push_word(&mut out, v.c);
    push_word(&mut out, v.d);
    push_word(&mut out, v.e);
    push_word(&mut out, v.f);
    push_word(&mut out, v.g);
    push_word(&mut out, v.h);
    out
}

/// A hash is 64 characters long, whatever was hashed.
pub proof fn lemma_a_hash_has_one_length(m: Seq<u8>)
    ensures
        digest(m).len() == 64,
{
    reveal(digest);
}

} // verus!
