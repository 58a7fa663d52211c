//! SHA-256 (FIPS 180-4), used to seal the design artifact.
//!
//! The specification functions below follow the standard's definitions: message
//! padding, the big-endian word view of each 512-bit block, the message schedule,
//! the 64-round compression function and the chaining of blocks. The executable
//! functions compute exactly those definitions.

use vstd::prelude::*;

verus! {

/// The round constants `K[0..64]`.
pub open spec fn round_constants() -> Seq<u32> {
    seq![
        0x428a2f98u32, 0x71374491u32, 0xb5c0fbcfu32, 0xe9b5dba5u32, 0x3956c25bu32, 0x59f111f1u32, 0x923f82a4u32, 0xab1c5ed5u32,
        0xd807aa98u32, 0x12835b01u32, 0x243185beu32, 0x550c7dc3u32, 0x72be5d74u32, 0x80deb1feu32, 0x9bdc06a7u32, 0xc19bf174u32,
        0xe49b69c1u32, 0xefbe4786u32, 0x0fc19dc6u32, 0x240ca1ccu32, 0x2de92c6fu32, 0x4a7484aau32, 0x5cb0a9dcu32, 0x76f988dau32,
        0x983e5152u32, 0xa831c66du32, 0xb00327c8u32, 0xbf597fc7u32, 0xc6e00bf3u32, 0xd5a79147u32, 0x06ca6351u32, 0x14292967u32,
        0x27b70a85u32, 0x2e1b2138u32, 0x4d2c6dfcu32, 0x53380d13u32, 0x650a7354u32, 0x766a0abbu32, 0x81c2c92eu32, 0x92722c85u32,
        0xa2bfe8a1u32, 0xa81a664bu32, 0xc24b8b70u32, 0xc76c51a3u32, 0xd192e819u32, 0xd6990624u32, 0xf40e3585u32, 0x106aa070u32,
        0x19a4c116u32, 0x1e376c08u32, 0x2748774cu32, 0x34b0bcb5u32, 0x391c0cb3u32, 0x4ed8aa4au32, 0x5b9cca4fu32, 0x682e6ff3u32,
        0x748f82eeu32, 0x78a5636fu32, 0x84c87814u32, 0x8cc70208u32, 0x90befffau32, 0xa4506cebu32, 0xbef9a3f7u32, 0xc67178f2u32,
    ]
}

/// The initial hash value `H(0)`.
pub open spec fn initial_hash() -> Seq<u32> {
    seq![
        0x6a09e667u32, 0xbb67ae85u32, 0x3c6ef372u32, 0xa54ff53au32,
        0x510e527fu32, 0x9b05688cu32, 0x1f83d9abu32, 0x5be0cd19u32,
    ]
}

/// Addition modulo 2^32.
pub open spec fn add32(a: u32, b: u32) -> u32 {
    vstd::wrapping::u32_specs::wrapping_add(a, b)
}

/// Rotate right by `n` bits, `0 < n < 32`.
pub open spec fn rotr(x: u32, n: u32) -> u32 {
    (x >> n) | (x << ((32 - n) as u32))
}

pub open spec fn ch(x: u32, y: u32, z: u32) -> u32 {
    (x & y) ^ (!x & z)
}

pub open spec fn maj(x: u32, y: u32, z: u32) -> u32 {
    (x & y) ^ (x & z) ^ (y & z)
}

pub open spec fn big_sigma0(x: u32) -> u32 {
    rotr(x, 2) ^ rotr(x, 13) ^ rotr(x, 22)
}

pub open spec fn big_sigma1(x: u32) -> u32 {
    rotr(x, 6) ^ rotr(x, 11) ^ rotr(x, 25)
}

pub open spec fn small_sigma0(x: u32) -> u32 {
    rotr(x, 7) ^ rotr(x, 18) ^ (x >> 3u32)
}

pub open spec fn small_sigma1(x: u32) -> u32 {
    rotr(x, 17) ^ rotr(x, 19) ^ (x >> 10u32)
}

/// Zero bytes of padding after the `0x80` marker, so that the padded length is
/// 56 modulo 64 before the length field.
pub open spec fn pad_zeros(len: nat) -> nat {
    ((119 - (len % 64)) % 64) as nat
}

/// The message length in bits, modulo 2^64, as eight big-endian bytes.
pub open spec fn length_field(len: nat) -> Seq<u8> {
    let bits = vstd::wrapping::u64_specs::wrapping_mul((len % 0x1_0000_0000_0000_0000) as u64, 8);
    Seq::new(8, |k: int| (bits >> ((56 - 8 * k) as u64)) as u8)
}

/// The padded message: the message, `0x80`, zeros, and the bit length.
pub open spec fn padded(msg: Seq<u8>) -> Seq<u8> {
    msg + seq![0x80u8] + Seq::new(pad_zeros(msg.len()), |k: int| 0u8) + length_field(msg.len())
}

/// Word `t` (big-endian) of block `i` of the padded message `p`.
pub open spec fn block_word(p: Seq<u8>, i: nat, t: nat) -> u32 {
    let o: int = (64 * i + 4 * t) as int;
    ((p[o] as u32) << 24u32) | ((p[o + 1] as u32) << 16u32) | ((p[o + 2] as u32) << 8u32) | (p[o + 3] as u32)
}

/// Word `t` of the message schedule of block `i`.
pub open spec fn schedule(p: Seq<u8>, i: nat, t: nat) -> u32
    decreases t,
{
    if t < 16 {
        block_word(p, i, t)
    } else {
        add32(
            add32(add32(small_sigma1(schedule(p, i, (t - 2) as nat)), schedule(p, i, (t - 7) as nat)),
                small_sigma0(schedule(p, i, (t - 15) as nat))),
            schedule(p, i, (t - 16) as nat),
        )
    }
}

/// One round of the compression function on working variables `a..h`.
pub open spec fn round(s: Seq<u32>, k: u32, w: u32) -> Seq<u32> {
    let t1 = add32(add32(add32(add32(s[7], big_sigma1(s[4])), ch(s[4], s[5], s[6])), k), w);
    let t2 = add32(big_sigma0(s[0]), maj(s[0], s[1], s[2]));
    seq![add32(t1, t2), s[0], s[1], s[2], add32(s[3], t1), s[4], s[5], s[6]]
}

/// The working variables after the first `t` rounds on block `i`.
pub open spec fn rounds(h: Seq<u32>, p: Seq<u8>, i: nat, t: nat) -> Seq<u32>
    decreases t,
{
    if t == 0 {
        h
    } else {
        round(rounds(h, p, i, (t - 1) as nat), round_constants()[t - 1], schedule(p, i, (t - 1) as nat))
    }
}

/// The hash value after block `i`: the working variables after 64 rounds, added
/// word by word to the value before it.
pub open spec fn compress(h: Seq<u32>, p: Seq<u8>, i: nat) -> Seq<u32> {
    let v = rounds(h, p, i, 64);
    Seq::new(8, |k: int| add32(h[k], v[k]))
}

/// The hash value after the first `n` blocks of the padded message.
pub open spec fn hash_blocks(p: Seq<u8>, n: nat) -> Seq<u32>
    decreases n,
{
    if n == 0 {
        initial_hash()
    } else {
        compress(hash_blocks(p, (n - 1) as nat), p, (n - 1) as nat)
    }
}

/// The 32-byte SHA-256 digest of `msg`: the final hash value, big-endian.
pub open spec fn sha256(msg: Seq<u8>) -> Seq<u8> {
    let p = padded(msg);
    let h = hash_blocks(p, p.len() / 64);
    Seq::new(32, |k: int| (h[k / 4] >> ((24 - 8 * (k % 4)) as u32)) as u8)
}


/// Lowercase hexadecimal digit.
pub open spec fn hex_digit(d: nat) -> char {
    if d < 10 { (48 + d) as char } else { (87 + d) as char }
}

/// Bytes in lowercase hexadecimal, two digits each.
pub open spec fn hex_text(bytes: Seq<u8>) -> Seq<char>
    decreases bytes.len(),
{
    if bytes.len() == 0 {
        Seq::empty()
    } else {
        hex_text(bytes.drop_last()) + seq![hex_digit((bytes.last() / 16) as nat), hex_digit((bytes.last() % 16) as nat)]
    }
}

fn rotr_exec(x: u32, n: u32) -> (r: u32)
    requires
        0 < n < 32,
    ensures
        r == rotr(x, n),
{
    (x >> n) | (x << (32 - n))
}

fn big_sigma0_exec(x: u32) -> (r: u32)
    ensures
        r == big_sigma0(x),
{
    rotr_exec(x, 2) ^ rotr_exec(x, 13) ^ rotr_exec(x, 22)
}

fn big_sigma1_exec(x: u32) -> (r: u32)
    ensures
        r == big_sigma1(x),
{
    rotr_exec(x, 6) ^ rotr_exec(x, 11) ^ rotr_exec(x, 25)
}

fn small_sigma0_exec(x: u32) -> (r: u32)
    ensures
        r == small_sigma0(x),
{
    rotr_exec(x, 7) ^ rotr_exec(x, 18) ^ (x >> 3u32)
}

fn small_sigma1_exec(x: u32) -> (r: u32)
    ensures
        r == small_sigma1(x),
{
    rotr_exec(x, 17) ^ rotr_exec(x, 19) ^ (x >> 10u32)
}

/// The message, padded to a whole number of 64-byte blocks.
fn pad_message(msg: &[u8]) -> (p: Vec<u8>)
    requires
        msg@.len() <= usize::MAX - 128,
    ensures
        p@ == padded(msg@),
        p@.len() % 64 == 0,
{
    let mut p: Vec<u8> = Vec::new();
    let mut i: usize = 0;
    while i < msg.len()
        invariant
            0 <= i <= msg@.len(),
            p@ == msg@.take(i as int),
        decreases msg@.len() - i,
    {
        p.push(msg[i]);
        proof {
            assert(msg@.take(i + 1) =~= msg@.take(i as int).push(msg@[i as int]));
        }
        i = i + 1;
    }
    proof {
        assert(msg@.take(msg@.len() as int) =~= msg@);
    }
    p.push(0x80u8);
    let zeros: usize = (119 - msg.len() % 64) % 64;
    let ghost head = p@;
    let mut z: usize = 0;
    while z < zeros
        invariant
            0 <= z <= zeros,
            zeros == pad_zeros(msg@.len()),
            p@ == head + Seq::new(z as nat, |k: int| 0u8),
        decreases zeros - z,
    {
        p.push(0u8);
        proof {
            assert(head + Seq::new((z + 1) as nat, |k: int| 0u8) =~= (head + Seq::new(z as nat, |k: int| 0u8)).push(0u8));
        }
        z = z + 1;
    }
    let bits: u64 = (msg.len() as u64).wrapping_mul(8);
    let ghost body = p@;
    let mut k: u64 = 0;
    while k < 8
        invariant
            0 <= k <= 8,
            bits == vstd::wrapping::u64_specs::wrapping_mul((msg@.len() % 0x1_0000_0000_0000_0000) as u64, 8),
            p@ == body + length_field(msg@.len()).take(k as int),
        decreases 8 - k,
    {
        p.push((bits >> (56 - 8 * k)) as u8);
        proof {
            assert(length_field(msg@.len()).take(k + 1) =~= length_field(msg@.len()).take(k as int).push((bits >> ((56 - 8 * k) as u64)) as u8));
        }
        k = k + 1;
    }
    proof {
        assert(length_field(msg@.len()).take(8) =~= length_field(msg@.len()));
        assert(p@ =~= padded(msg@));
    }
    p
}

/// The 64 words of the message schedule of block `i`.
fn message_schedule(p: &Vec<u8>, i: usize) -> (w: Vec<u32>)
    requires
        64 * (i + 1) <= p@.len(),
    ensures
        w@.len() == 64,
        forall|t: int| 0 <= t < 64 ==> #[trigger] w@[t] == schedule(p@, i as nat, t as nat),
{
    let mut w: Vec<u32> = Vec::new();
    let mut t: usize = 0;
    let plen = p.len();
    while t < 64
        invariant
            plen == p@.len(),
            64 * (i + 1) <= p@.len(),
            0 <= t <= 64,
            w@.len() == t,
            forall|m: int| 0 <= m < t ==> #[trigger] w@[m] == schedule(p@, i as nat, m as nat),
        decreases 64 - t,
    {
        if t < 16 {
            let o = 64 * i + 4 * t;
            let x = ((p[o] as u32) << 24u32) | ((p[o + 1] as u32) << 16u32) | ((p[o + 2] as u32) << 8u32) | (p[o + 3] as u32);
            w.push(x);
        } else {
            let x = small_sigma1_exec(w[t - 2]).wrapping_add(w[t - 7]).wrapping_add(small_sigma0_exec(w[t - 15])).wrapping_add(w[t - 16]);
            w.push(x);
        }
        t = t + 1;
    }
    w
}

/// The round constants, in order.
fn round_constant_table() -> (k: Vec<u32>)
    ensures
        k@ == round_constants(),
{
    let k = vec![
        0x428a2f98u32, 0x71374491u32, 0xb5c0fbcfu32, 0xe9b5dba5u32, 0x3956c25bu32, 0x59f111f1u32, 0x923f82a4u32, 0xab1c5ed5u32,
        0xd807aa98u32, 0x12835b01u32, 0x243185beu32, 0x550c7dc3u32, 0x72be5d74u32, 0x80deb1feu32, 0x9bdc06a7u32, 0xc19bf174u32,
        0xe49b69c1u32, 0xefbe4786u32, 0x0fc19dc6u32, 0x240ca1ccu32, 0x2de92c6fu32, 0x4a7484aau32, 0x5cb0a9dcu32, 0x76f988dau32,
        0x983e5152u32, 0xa831c66du32, 0xb00327c8u32, 0xbf597fc7u32, 0xc6e00bf3u32, 0xd5a79147u32, 0x06ca6351u32, 0x14292967u32,
        0x27b70a85u32, 0x2e1b2138u32, 0x4d2c6dfcu32, 0x53380d13u32, 0x650a7354u32, 0x766a0abbu32, 0x81c2c92eu32, 0x92722c85u32,
        0xa2bfe8a1u32, 0xa81a664bu32, 0xc24b8b70u32, 0xc76c51a3u32, 0xd192e819u32, 0xd6990624u32, 0xf40e3585u32, 0x106aa070u32,
        0x19a4c116u32, 0x1e376c08u32, 0x2748774cu32, 0x34b0bcb5u32, 0x391c0cb3u32, 0x4ed8aa4au32, 0x5b9cca4fu32, 0x682e6ff3u32,
        0x748f82eeu32, 0x78a5636fu32, 0x84c87814u32, 0x8cc70208u32, 0x90befffau32, 0xa4506cebu32, 0xbef9a3f7u32, 0xc67178f2u32,
    ];
    assert(k@ =~= round_constants());
    k
}

/// The hash value after compressing block `i` into `h`.
fn compress_block(h: &Vec<u32>, p: &Vec<u8>, i: usize, ks: &Vec<u32>) -> (r: Vec<u32>)
    requires
        h@.len() == 8,
        64 * (i + 1) <= p@.len(),
        ks@ == round_constants(),
    ensures
        r@ == compress(h@, p@, i as nat),
{
    let w = message_schedule(p, i);
    let mut a = h[0];
    let mut b = h[1];
    let mut c = h[2];
    let mut d = h[3];
    let mut e = h[4];
    let mut f = h[5];
    let mut g = h[6];
    let mut hh = h[7];
    proof {
        assert(seq![a, b, c, d, e, f, g, hh] =~= rounds(h@, p@, i as nat, 0));
    }
    let mut t: usize = 0;
    while t < 64
        invariant
            h@.len() == 8,
            ks@ == round_constants(),
            w@.len() == 64,
            forall|m: int| 0 <= m < 64 ==> #[trigger] w@[m] == schedule(p@, i as nat, m as nat),
            0 <= t <= 64,
            seq![a, b, c, d, e, f, g, hh] == rounds(h@, p@, i as nat, t as nat),
        decreases 64 - t,
    {
        let ghost s = seq![a, b, c, d, e, f, g, hh];
        let ch_v = (e & f) ^ (!e & g);
        let maj_v = (a & b) ^ (a & c) ^ (b & c);
        let t1 = hh.wrapping_add(big_sigma1_exec(e)).wrapping_add(ch_v).wrapping_add(ks[t]).wrapping_add(w[t]);
        let t2 = big_sigma0_exec(a).wrapping_add(maj_v);
        hh = g;
        g = f;
        f = e;
        e = d.wrapping_add(t1);
        d = c;
        c = b;
        b = a;
        a = t1.wrapping_add(t2);
        proof {
            assert(seq![a, b, c, d, e, f, g, hh] =~= round(s, round_constants()[t as int], schedule(p@, i as nat, t as nat)));
        }
        t = t + 1;
    }
    let mut r: Vec<u32> = Vec::new();
    r.push(h[0].wrapping_add(a));
    r.push(h[1].wrapping_add(b));
    r.push(h[2].wrapping_add(c));
    r.push(h[3].wrapping_add(d));
    r.push(h[4].wrapping_add(e));
    r.push(h[5].wrapping_add(f));
    r.push(h[6].wrapping_add(g));
    r.push(h[7].wrapping_add(hh));
    proof {
        assert(r@ =~= compress(h@, p@, i as nat));
    }
    r
}

/// The SHA-256 digest of `data`.
pub fn digest(data: &[u8]) -> (d: Vec<u8>)
    requires
        data@.len() <= usize::MAX - 128,
    ensures
        d@ == sha256(data@),
{
    let p = pad_message(data);
    let ks = round_constant_table();
    let n = p.len() / 64;
    let mut h: Vec<u32> = vec![
        0x6a09e667u32, 0xbb67ae85u32, 0x3c6ef372u32, 0xa54ff53au32,
        0x510e527fu32, 0x9b05688cu32, 0x1f83d9abu32, 0x5be0cd19u32,
    ];
    proof {
        assert(h@ =~= hash_blocks(p@, 0));
    }
    let mut i: usize = 0;
    while i < n
        invariant
            n == p@.len() / 64,
            p@.len() % 64 == 0,
            ks@ == round_constants(),
            0 <= i <= n,
            h@ == hash_blocks(p@, i as nat),
            h@.len() == 8,
        decreases n - i,
    {
        h = compress_block(&h, &p, i, &ks);
        i = i + 1;
    }
    let mut d: Vec<u8> = Vec::new();
    let mut k: usize = 0;
    while k < 32
        invariant
            h@.len() == 8,
            h@ == hash_blocks(p@, n as nat),
            p@ == padded(data@),
            n == p@.len() / 64,
            0 <= k <= 32,
            d@ == sha256(data@).take(k as int),
        decreases 32 - k,
    {
        d.push((h[k / 4] >> (24 - 8 * (k % 4)) as u32) as u8);
        proof {
            assert(sha256(data@).take(k + 1) =~= sha256(data@).take(k as int).push((h@[(k / 4) as int] >> ((24 - 8 * (k % 4)) as u32)) as u8));
        }
        k = k + 1;
    }
    proof {
        assert(sha256(data@).take(32) =~= sha256(data@));
    }
    d
}

fn push_hex_digit(out: &mut String, v: u8)
    requires
        v < 16,
    ensures
        final(out)@ == old(out)@.push(hex_digit(v as nat)),
{
    let c: char = if v < 10 { (48u8 + v) as char } else { (87u8 + v) as char };
    crate::export::push_char(out, c);
}

/// The SHA-256 digest of `data`, in lowercase hexadecimal.
pub fn hex(data: &[u8]) -> (s: String)
    requires
        data@.len() <= usize::MAX - 128,
    ensures
        s@ == hex_text(sha256(data@)),
{
    let d = digest(data);
    let mut s = String::new();
    let mut k: usize = 0;
    while k < d.len()
        invariant
            0 <= k <= d@.len(),
            s@ == hex_text(d@.take(k as int)),
        decreases d@.len() - k,
    {
        let b = d[k];
        push_hex_digit(&mut s, b / 16);
        push_hex_digit(&mut s, b % 16);
        proof {
            assert(d@.take(k + 1).drop_last() =~= d@.take(k as int));
        }
        k = k + 1;
    }
    proof {
        assert(d@.take(d@.len() as int) =~= d@);
    }
    s
}

} // verus!
