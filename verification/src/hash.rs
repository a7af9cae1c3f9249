//! SHA-256 (FIPS 180-4), hex-encoded, for the content hashes of `proven`
//! files. The specification functions below are the standard's
//! definitions; the executable code computes exactly them.

use vstd::prelude::*;
use vstd::wrapping::u32_specs::wrapping_add as add32;
use vstd::wrapping::u64_specs::wrapping_mul as mul64;

verus! {

/// Rotation to the right by `n` (0 < `n` < 32).
pub open spec fn rotr(x: u32, n: u32) -> u32 {
    (x >> n) | (x << ((32 - n) as u32))
}

/// The standard's `Σ0`.
pub open spec fn big_s0(x: u32) -> u32 {
    rotr(x, 2) ^ rotr(x, 13) ^ rotr(x, 22)
}

/// The standard's `Σ1`.
pub open spec fn big_s1(x: u32) -> u32 {
    rotr(x, 6) ^ rotr(x, 11) ^ rotr(x, 25)
}

/// The standard's `σ0`.
pub open spec fn small_s0(x: u32) -> u32 {
    rotr(x, 7) ^ rotr(x, 18) ^ (x >> 3)
}

/// The standard's `σ1`.
pub open spec fn small_s1(x: u32) -> u32 {
    rotr(x, 17) ^ rotr(x, 19) ^ (x >> 10)
}

/// The standard's `Ch`.
pub open spec fn ch(x: u32, y: u32, z: u32) -> u32 {
    (x & y) ^ (!x & z)
}

/// The standard's `Maj`.
pub open spec fn maj(x: u32, y: u32, z: u32) -> u32 {
    (x & y) ^ (x & z) ^ (y & z)
}

/// The round constants.
pub open spec fn round_k() -> Seq<u32> {
    seq![
        0x428a2f98u32, 0x71374491, 0xb5c0fbcf, 0xe9b5dba5, 0x3956c25b, 0x59f111f1, 0x923f82a4, 0xab1c5ed5,
        0xd807aa98, 0x12835b01, 0x243185be, 0x550c7dc3, 0x72be5d74, 0x80deb1fe, 0x9bdc06a7, 0xc19bf174,
        0xe49b69c1, 0xefbe4786, 0x0fc19dc6, 0x240ca1cc, 0x2de92c6f, 0x4a7484aa, 0x5cb0a9dc, 0x76f988da,
        0x983e5152, 0xa831c66d, 0xb00327c8, 0xbf597fc7, 0xc6e00bf3, 0xd5a79147, 0x06ca6351, 0x14292967,
        0x27b70a85, 0x2e1b2138, 0x4d2c6dfc, 0x53380d13, 0x650a7354, 0x766a0abb, 0x81c2c92e, 0x92722c85,
        0xa2bfe8a1, 0xa81a664b, 0xc24b8b70, 0xc76c51a3, 0xd192e819, 0xd6990624, 0xf40e3585, 0x106aa070,
        0x19a4c116, 0x1e376c08, 0x2748774c, 0x34b0bcb5, 0x391c0cb3, 0x4ed8aa4a, 0x5b9cca4f, 0x682e6ff3,
        0x748f82ee, 0x78a5636f, 0x84c87814, 0x8cc70208, 0x90befffa, 0xa4506ceb, 0xbef9a3f7, 0xc67178f2
    ]
}

/// The initial hash value.
pub open spec fn initial_hash() -> Seq<u32> {
    seq![0x6a09e667u32, 0xbb67ae85, 0x3c6ef372, 0xa54ff53a, 0x510e527f, 0x9b05688c, 0x1f83d9ab, 0x5be0cd19]
}

/// The message schedule word `t` of a 16-word block.
pub open spec fn schedule(block: Seq<u32>, t: int) -> u32
    decreases t,
{
    if t < 16 {
        block[t]
    } else {
        add32(add32(add32(small_s1(schedule(block, t - 2)), schedule(block, t - 7)), small_s0(schedule(block, t - 15))), schedule(block, t - 16))
    }
}

/// One compression round on the working variables `a..h`.
pub open spec fn round(st: Seq<u32>, k: u32, w: u32) -> Seq<u32> {
    let t1 = add32(add32(add32(add32(st[7], big_s1(st[4])), ch(st[4], st[5], st[6])), k), w);
    let t2 = add32(big_s0(st[0]), maj(st[0], st[1], st[2]));
    seq![add32(t1, t2), st[0], st[1], st[2], add32(st[3], t1), st[4], st[5], st[6]]
}

/// The working variables after the first `t` rounds.
pub open spec fn rounds(st: Seq<u32>, block: Seq<u32>, t: int) -> Seq<u32>
    decreases t,
{
    if t <= 0 {
        st
    } else {
        round(rounds(st, block, t - 1), round_k()[t - 1], schedule(block, t - 1))
    }
}

/// The hash value after one block.
pub open spec fn compress(h: Seq<u32>, block: Seq<u32>) -> Seq<u32> {
    let v = rounds(h, block, 64);
    Seq::new(8, |i: int| add32(h[i], v[i]))
}

/// The 64-bit big-endian encoding of `x`.
pub open spec fn be64(x: u64) -> Seq<u8> {
    Seq::new(8, |i: int| (x >> ((56 - 8 * i) as u64)) as u8)
}

/// The padded message: the message, `0x80`, zeros up to 8 bytes short of
/// a multiple of 64, and the message's length in bits (mod 2^64).
pub open spec fn padded(msg: Seq<u8>) -> Seq<u8> {
    let zeros = ((119 - (msg.len() % 64)) % 64) as nat;
    msg + seq![0x80u8] + Seq::new(zeros, |i: int| 0u8) + be64(mul64(msg.len() as u64, 8))
}

/// The big-endian word at byte `i` of `bytes`.
pub open spec fn word_at(bytes: Seq<u8>, i: int) -> u32 {
    ((bytes[i] as u32) << 24u32) | ((bytes[i + 1] as u32) << 16u32) | ((bytes[i + 2] as u32) << 8u32) | (bytes[i + 3] as u32)
}

/// The 16 words of block `b` of `bytes`.
pub open spec fn block_words(bytes: Seq<u8>, b: int) -> Seq<u32> {
    Seq::new(16, |j: int| word_at(bytes, 64 * b + 4 * j))
}

/// The hash value after the first `n` blocks of `bytes`.
pub open spec fn digest_upto(bytes: Seq<u8>, n: int) -> Seq<u32>
    decreases n,
{
    if n <= 0 {
        initial_hash()
    } else {
        compress(digest_upto(bytes, n - 1), block_words(bytes, n - 1))
    }
}

/// The SHA-256 hash value of `msg`.
pub open spec fn sha256(msg: Seq<u8>) -> Seq<u32> {
    let p = padded(msg);
    digest_upto(p, p.len() as int / 64)
}

/// The lower-case hex digit of a nibble.
pub open spec fn hex_digit(n: u32) -> char {
    if n < 10 { ((48 + n) as u8) as char } else { ((87 + n) as u8) as char }
}

/// The eight hex digits of a word, most significant first.
pub open spec fn word_hex(w: u32) -> Seq<char> {
    Seq::new(8, |i: int| hex_digit((w >> ((28 - 4 * i) as u32)) & 0xf))
}

/// The hex digits of the words, in order.
pub open spec fn words_hex(ws: Seq<u32>) -> Seq<char>
    decreases ws.len(),
{
    if ws.len() == 0 { Seq::empty() } else { words_hex(ws.drop_last()) + word_hex(ws.last()) }
}

fn rotr_e(x: u32, n: u32) -> (r: u32)
    requires
        0 < n < 32,
    ensures
        r == rotr(x, n),
{
    (x >> n) | (x << (32 - n))
}

fn round_e(st: &[u32; 8], k: u32, w: u32) -> (r: [u32; 8])
    ensures
        r@ == round(st@, k, w),
{
    let e = st[4];
    let a = st[0];
    let s1 = rotr_e(e, 6) ^ rotr_e(e, 11) ^ rotr_e(e, 25);
    let c = (e & st[5]) ^ (!e & st[6]);
    let t1 = st[7].wrapping_add(s1).wrapping_add(c).wrapping_add(k).wrapping_add(w);
    let s0 = rotr_e(a, 2) ^ rotr_e(a, 13) ^ rotr_e(a, 22);
    let m = (a & st[1]) ^ (a & st[2]) ^ (st[1] & st[2]);
    let t2 = s0.wrapping_add(m);
    let r = [t1.wrapping_add(t2), st[0], st[1], st[2], st[3].wrapping_add(t1), st[4], st[5], st[6]];
    assert(r@ =~= round(st@, k, w));
    r
}

fn compress_e(h: &[u32; 8], bytes: &Vec<u8>, b: usize) -> (r: [u32; 8])
    requires
        64 * b + 64 <= bytes@.len(),
    ensures
        r@ == compress(h@, block_words(bytes@, b as int)),
{
    let ghost blk = block_words(bytes@, b as int);
    let kt: [u32; 64] = [
        0x428a2f98u32, 0x71374491, 0xb5c0fbcf, 0xe9b5dba5, 0x3956c25b, 0x59f111f1, 0x923f82a4, 0xab1c5ed5,
        0xd807aa98, 0x12835b01, 0x243185be, 0x550c7dc3, 0x72be5d74, 0x80deb1fe, 0x9bdc06a7, 0xc19bf174,
        0xe49b69c1, 0xefbe4786, 0x0fc19dc6, 0x240ca1cc, 0x2de92c6f, 0x4a7484aa, 0x5cb0a9dc, 0x76f988da,
        0x983e5152, 0xa831c66d, 0xb00327c8, 0xbf597fc7, 0xc6e00bf3, 0xd5a79147, 0x06ca6351, 0x14292967,
        0x27b70a85, 0x2e1b2138, 0x4d2c6dfc, 0x53380d13, 0x650a7354, 0x766a0abb, 0x81c2c92e, 0x92722c85,
        0xa2bfe8a1, 0xa81a664b, 0xc24b8b70, 0xc76c51a3, 0xd192e819, 0xd6990624, 0xf40e3585, 0x106aa070,
        0x19a4c116, 0x1e376c08, 0x2748774c, 0x34b0bcb5, 0x391c0cb3, 0x4ed8aa4a, 0x5b9cca4f, 0x682e6ff3,
        0x748f82ee, 0x78a5636f, 0x84c87814, 0x8cc70208, 0x90befffa, 0xa4506ceb, 0xbef9a3f7, 0xc67178f2,
    ];
    assert(kt@ =~= round_k());
    // the message schedule
    let n = bytes.len();
    let base = 64 * b;
    let mut w: Vec<u32> = Vec::new();
    let mut t: usize = 0;
    while t < 64
        invariant
            64 * b + 64 <= bytes@.len(),
            n == bytes@.len(),
            base == 64 * b,
            blk == block_words(bytes@, b as int),
            t <= 64,
            w@.len() == t,
            forall|j: int| 0 <= j < t ==> w@[j] == schedule(blk, j),
        decreases 64 - t,
    {
        let x = if t < 16 {
            let i = base + 4 * t;
            let v = ((bytes[i] as u32) << 24u32) | ((bytes[i + 1] as u32) << 16u32) | ((bytes[i + 2] as u32) << 8u32) | (bytes[i + 3] as u32);
            assert(v == word_at(bytes@, i as int));
            assert(blk[t as int] == word_at(bytes@, 64 * b + 4 * t));
            assert(v == schedule(blk, t as int));
            v
        } else {
            let a = w[t - 2];
            let s1 = rotr_e(a, 17) ^ rotr_e(a, 19) ^ (a >> 10);
            let c = w[t - 15];
            let s0 = rotr_e(c, 7) ^ rotr_e(c, 18) ^ (c >> 3);
            let v = s1.wrapping_add(w[t - 7]).wrapping_add(s0).wrapping_add(w[t - 16]);
            assert(s1 == small_s1(schedule(blk, t - 2)));
            assert(s0 == small_s0(schedule(blk, t - 15)));
            assert(w@[t - 7] == schedule(blk, t - 7));
            assert(w@[t - 16] == schedule(blk, t - 16));
            assert(v == schedule(blk, t as int));
            v
        };
        assert(x == schedule(blk, t as int));
        w.push(x);
        t = t + 1;
    }
    // the rounds
    let mut st: [u32; 8] = *h;
    let mut t: usize = 0;
    while t < 64
        invariant
            t <= 64,
            w@.len() == 64,
            kt@ == round_k(),
            forall|j: int| 0 <= j < 64 ==> w@[j] == schedule(blk, j),
            st@ == rounds(h@, blk, t as int),
        decreases 64 - t,
    {
        st = round_e(&st, kt[t], w[t]);
        t = t + 1;
    }
    let r = [
        h[0].wrapping_add(st[0]), h[1].wrapping_add(st[1]), h[2].wrapping_add(st[2]), h[3].wrapping_add(st[3]),
        h[4].wrapping_add(st[4]), h[5].wrapping_add(st[5]), h[6].wrapping_add(st[6]), h[7].wrapping_add(st[7]),
    ];
    assert(r@ =~= compress(h@, blk));
    r
}

fn push_all_bytes(out: &mut Vec<u8>, s: &[u8])
    ensures
        final(out)@ == old(out)@ + s@,
{
    let ghost start = out@;
    let mut i: usize = 0;
    while i < s.len()
        invariant
            i <= s@.len(),
            out@ == start + s@.take(i as int),
        decreases s.len() - i,
    {
        out.push(s[i]);
        i = i + 1;
        assert(out@ =~= start + s@.take(i as int));
    }
    assert(s@.take(s@.len() as int) =~= s@);
}

fn pad(msg: &[u8]) -> (r: Vec<u8>)
    requires
        msg@.len() + 128 <= usize::MAX,
    ensures
        r@ == padded(msg@),
        r@.len() % 64 == 0,
{
    let mut out: Vec<u8> = Vec::new();
    push_all_bytes(&mut out, msg);
    out.push(0x80u8);
    let zeros = (119 - (msg.len() % 64)) % 64;
    let ghost base = out@;
    let mut i: usize = 0;
    while i < zeros
        invariant
            i <= zeros,
            out@ == base + Seq::new(i as nat, |j: int| 0u8),
        decreases zeros - i,
    {
        out.push(0u8);
        i = i + 1;
        assert(out@ =~= base + Seq::new(i as nat, |j: int| 0u8));
    }
    let bits = (msg.len() as u64).wrapping_mul(8);
    let ghost mid = out@;
    let be: [u8; 8] = [
        (bits >> 56u64) as u8, (bits >> 48u64) as u8, (bits >> 40u64) as u8, (bits >> 32u64) as u8,
        (bits >> 24u64) as u8, (bits >> 16u64) as u8, (bits >> 8u64) as u8, (bits >> 0u64) as u8,
    ];
    assert(be@ =~= be64(bits));
    push_all_bytes(&mut out, &be);
    assert(out@ =~= padded(msg@));
    proof {
        let n = msg@.len();
        assert((n + 1 + (119 - n % 64) % 64 + 8) % 64 == 0) by (nonlinear_arith);
    }
    out
}

fn hex_e(n: u32) -> (c: char)
    requires
        n < 16,
    ensures
        c == hex_digit(n),
{
    if n < 10 { ((48 + n) as u8) as char } else { ((87 + n) as u8) as char }
}

/// The SHA-256 hash of `bytes` as 64 lower-case hex digits.
pub fn sha256_hex(bytes: &[u8]) -> (r: String)
    requires
        bytes@.len() + 128 <= usize::MAX,
    ensures
        r@ == words_hex(sha256(bytes@)),
{
    let p = pad(bytes);
    let nb = p.len() / 64;
    let mut h: [u32; 8] = [0x6a09e667u32, 0xbb67ae85, 0x3c6ef372, 0xa54ff53a, 0x510e527f, 0x9b05688c, 0x1f83d9ab, 0x5be0cd19];
    assert(h@ =~= initial_hash());
    let mut b: usize = 0;
    while b < nb
        invariant
            b <= nb,
            nb == p@.len() / 64,
            p@.len() % 64 == 0,
            h@ == digest_upto(p@, b as int),
        decreases nb - b,
    {
        assert(64 * b + 64 <= p@.len()) by (nonlinear_arith)
            requires b < nb, nb == p@.len() / 64, p@.len() % 64 == 0;
        h = compress_e(&h, &p, b);
        b = b + 1;
    }
    let mut out: Vec<char> = Vec::new();
    let mut i: usize = 0;
    while i < 8
        invariant
            i <= 8,
            h@.len() == 8,
            out@ == words_hex(h@.take(i as int)),
        decreases 8 - i,
    {
        let wd = h[i];
        let ghost before = out@;
        let mut k: u32 = 0;
        while k < 8
            invariant
                k <= 8,
                wd == h@[i as int],
                out@ == before + word_hex(wd).take(k as int),
            decreases 8 - k,
        {
            let sh: u32 = 28 - 4 * k;
            let nib = (wd >> sh) & 0xf;
            assert(nib < 16) by (bit_vector)
                requires nib == (wd >> sh) & 0xf;
            out.push(hex_e(nib));
            k = k + 1;
            assert(out@ =~= before + word_hex(wd).take(k as int));
        }
        assert(h@.take(i + 1).drop_last() =~= h@.take(i as int));
        assert(word_hex(wd).take(8) =~= word_hex(wd));
        i = i + 1;
    }
    assert(h@.take(8) =~= h@);
    crate::text::string_of(&out)
}

} // verus!
