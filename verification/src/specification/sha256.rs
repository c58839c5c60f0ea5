//! SHA-256 (FIPS 180-4), used for the specification digest, snapshot
//! manifests and the stable identifiers derived from the specification.

use vstd::prelude::*;
use vstd::wrapping::u32_specs;

verus! {

// ----------------------------------------------------------------- model

/// Addition modulo 2^32.
pub open spec fn add32(x: u32, y: u32) -> u32 {
    ((x + y) % 0x1_0000_0000) as u32
}

pub open spec fn rotr(x: u32, n: u32) -> u32
    recommends
        0 < n < 32,
{
    (x >> n) | (x << ((32 - n) as u32))
}

pub open spec fn ch(x: u32, y: u32, z: u32) -> u32 {
    (x & y) ^ (!x & z)
}

pub open spec fn maj(x: u32, y: u32, z: u32) -> u32 {
    (x & y) ^ (x & z) ^ (y & z)
}

pub open spec fn big_sigma0(x: u32) -> u32 {
    rotr(x, 2) ^ rotr(x, 13) ^ rotr(x, 22)
}

pub open spec fn big_sigma1(x: u32) -> u32 {
    rotr(x, 6) ^ rotr(x, 11) ^ rotr(x, 25)
}

pub open spec fn small_sigma0(x: u32) -> u32 {
    rotr(x, 7) ^ rotr(x, 18) ^ (x >> 3u32)
}

pub open spec fn small_sigma1(x: u32) -> u32 {
    rotr(x, 17) ^ rotr(x, 19) ^ (x >> 10u32)
}

/// The sixty-four round constants.
pub open spec fn round_constants() -> Seq<u32> {
    seq![
        0x428a2f98u32, 0x71374491, 0xb5c0fbcf, 0xe9b5dba5, 0x3956c25b, 0x59f111f1, 0x923f82a4,
        0xab1c5ed5, 0xd807aa98, 0x12835b01, 0x243185be, 0x550c7dc3, 0x72be5d74, 0x80deb1fe,
        0x9bdc06a7, 0xc19bf174, 0xe49b69c1, 0xefbe4786, 0x0fc19dc6, 0x240ca1cc, 0x2de92c6f,
        0x4a7484aa, 0x5cb0a9dc, 0x76f988da, 0x983e5152, 0xa831c66d, 0xb00327c8, 0xbf597fc7,
        0xc6e00bf3, 0xd5a79147, 0x06ca6351, 0x14292967, 0x27b70a85, 0x2e1b2138, 0x4d2c6dfc,
        0x53380d13, 0x650a7354, 0x766a0abb, 0x81c2c92e, 0x92722c85, 0xa2bfe8a1, 0xa81a664b,
        0xc24b8b70, 0xc76c51a3, 0xd192e819, 0xd6990624, 0xf40e3585, 0x106aa070, 0x19a4c116,
        0x1e376c08, 0x2748774c, 0x34b0bcb5, 0x391c0cb3, 0x4ed8aa4a, 0x5b9cca4f, 0x682e6ff3,
        0x748f82ee, 0x78a5636f, 0x84c87814, 0x8cc70208, 0x90befffa, 0xa4506ceb, 0xbef9a3f7,
        0xc67178f2,
    ]
}

/// The initial hash value.
pub open spec fn initial_state() -> Seq<u32> {
    seq![
        0x6a09e667u32, 0xbb67ae85, 0x3c6ef372, 0xa54ff53a, 0x510e527f, 0x9b05688c, 0x1f83d9ab,
        0x5be0cd19,
    ]
}

/// Number of zero bytes between the `0x80` marker and the length field.
pub open spec fn zero_fill(len: nat) -> nat {
    ((64 - ((len + 9) % 64)) % 64) as nat
}

/// The low `n` bytes of `v`, most significant first.
pub open spec fn big_endian(v: nat, n: nat) -> Seq<u8>
    decreases n,
{
    if n == 0 {
        seq![]
    } else {
        big_endian(v / 256, (n - 1) as nat).push((v % 256) as u8)
    }
}

/// The message followed by the padding of section 5.1.1; the length field
/// holds the message length in bits, modulo 2^64.
pub open spec fn padded(msg: Seq<u8>) -> Seq<u8> {
    msg + seq![0x80u8] + Seq::new(zero_fill(msg.len()), |i: int| 0u8) + big_endian(
        (msg.len() * 8) % 0x1_0000_0000_0000_0000,
        8,
    )
}

/// A big-endian 32-bit word.
pub open spec fn word_at(bytes: Seq<u8>, at: int) -> u32 {
    (bytes[at] * 0x1000000 + bytes[at + 1] * 0x10000 + bytes[at + 2] * 0x100 + bytes[at
        + 3]) as u32
}

/// The sixteen words of block `b`.
pub open spec fn block_words(bytes: Seq<u8>, b: int) -> Seq<u32> {
    Seq::new(16, |j: int| word_at(bytes, 64 * b + 4 * j))
}

pub open spec fn next_word(w: Seq<u32>, t: int) -> u32 {
    add32(add32(add32(small_sigma1(w[t - 2]), w[t - 7]), small_sigma0(w[t - 15])), w[t - 16])
}

/// The first `n` words of the message schedule of a block.
#[verifier::opaque]
pub open spec fn schedule(m: Seq<u32>, n: nat) -> Seq<u32>
    decreases n,
{
    if n <= 16 {
        m.take(n as int)
    } else {
        let prev = schedule(m, (n - 1) as nat);
        prev.push(next_word(prev, n - 1))
    }
}

/// One round of the compression function on the working variables.
pub open spec fn round(s: Seq<u32>, k: u32, w: u32) -> Seq<u32> {
    let t1 = add32(add32(add32(add32(s[7], big_sigma1(s[4])), ch(s[4], s[5], s[6])), k), w);
    let t2 = add32(big_sigma0(s[0]), maj(s[0], s[1], s[2]));
    seq![add32(t1, t2), s[0], s[1], s[2], add32(s[3], t1), s[4], s[5], s[6]]
}

/// The working variables after the first `n` rounds.
#[verifier::opaque]
pub open spec fn rounds(h: Seq<u32>, w: Seq<u32>, n: nat) -> Seq<u32>
    decreases n,
{
    if n == 0 {
        h
    } else {
        round(rounds(h, w, (n - 1) as nat), round_constants()[n - 1], w[n - 1])
    }
}

/// The intermediate hash value after one more block.
pub open spec fn compress(h: Seq<u32>, m: Seq<u32>) -> Seq<u32> {
    let v = rounds(h, schedule(m, 64), 64);
    Seq::new(8, |i: int| add32(h[i], v[i]))
}

/// The hash value after the first `n` blocks of a padded message.
pub open spec fn hash_blocks(bytes: Seq<u8>, n: nat) -> Seq<u32>
    decreases n,
{
    if n == 0 {
        initial_state()
    } else {
        compress(hash_blocks(bytes, (n - 1) as nat), block_words(bytes, n - 1))
    }
}

/// The bytes of a hash value, each word most significant byte first.
pub open spec fn state_bytes(h: Seq<u32>) -> Seq<u8> {
    Seq::new(32, |i: int| ((h[i / 4] as nat / pow256(3 - i % 4)) % 256) as u8)
}

pub open spec fn pow256(e: int) -> nat {
    if e == 0 {
        1
    } else if e == 1 {
        0x100
    } else if e == 2 {
        0x10000
    } else {
        0x1000000
    }
}

/// The SHA-256 digest of a message.
pub open spec fn digest(msg: Seq<u8>) -> Seq<u8> {
    let p = padded(msg);
    state_bytes(hash_blocks(p, p.len() / 64))
}

/// The lower-case hexadecimal rendering of bytes.
pub open spec fn hex(bytes: Seq<u8>) -> Seq<char> {
    Seq::new(2 * bytes.len(), |i: int| hex_char(if i % 2 == 0 {
        bytes[i / 2] / 16
    } else {
        bytes[i / 2] % 16
    }))
}

pub open spec fn hex_char(d: u8) -> char {
    if d < 10 {
        ((d + 48) as u8) as char
    } else {
        ((d + 87) as u8) as char
    }
}

// ------------------------------------------------------------ primitives

proof fn lemma_wrapping_add(x: u32, y: u32)
    ensures
        u32_specs::wrapping_add(x, y) == add32(x, y),
{
}

fn wadd(x: u32, y: u32) -> (r: u32)
    ensures
        r == add32(x, y),
{
    proof {
        lemma_wrapping_add(x, y);
    }
    x.wrapping_add(y)
}

fn rotate(x: u32, n: u32) -> (r: u32)
    requires
        0 < n < 32,
    ensures
        r == rotr(x, n),
{
    (x >> n) | (x << (32 - n))
}

fn round_constant_table() -> (k: Vec<u32>)
    ensures
        k@ == round_constants(),
{
    let k = vec![
        0x428a2f98u32, 0x71374491, 0xb5c0fbcf, 0xe9b5dba5, 0x3956c25b, 0x59f111f1, 0x923f82a4,
        0xab1c5ed5, 0xd807aa98, 0x12835b01, 0x243185be, 0x550c7dc3, 0x72be5d74, 0x80deb1fe,
        0x9bdc06a7, 0xc19bf174, 0xe49b69c1, 0xefbe4786, 0x0fc19dc6, 0x240ca1cc, 0x2de92c6f,
        0x4a7484aa, 0x5cb0a9dc, 0x76f988da, 0x983e5152, 0xa831c66d, 0xb00327c8, 0xbf597fc7,
        0xc6e00bf3, 0xd5a79147, 0x06ca6351, 0x14292967, 0x27b70a85, 0x2e1b2138, 0x4d2c6dfc,
        0x53380d13, 0x650a7354, 0x766a0abb, 0x81c2c92e, 0x92722c85, 0xa2bfe8a1, 0xa81a664b,
        0xc24b8b70, 0xc76c51a3, 0xd192e819, 0xd6990624, 0xf40e3585, 0x106aa070, 0x19a4c116,
        0x1e376c08, 0x2748774c, 0x34b0bcb5, 0x391c0cb3, 0x4ed8aa4a, 0x5b9cca4f, 0x682e6ff3,
        0x748f82ee, 0x78a5636f, 0x84c87814, 0x8cc70208, 0x90befffa, 0xa4506ceb, 0xbef9a3f7,
        0xc67178f2,
    ];
    assert(k@ =~= round_constants());
    k
}

fn initial_state_table() -> (h: Vec<u32>)
    ensures
        h@ == initial_state(),
{
    let h = vec![
        0x6a09e667u32, 0xbb67ae85, 0x3c6ef372, 0xa54ff53a, 0x510e527f, 0x9b05688c, 0x1f83d9ab,
        0x5be0cd19,
    ];
    assert(h@ =~= initial_state());
    h
}

fn big_sigma0_of(x: u32) -> (r: u32)
    ensures
        r == big_sigma0(x),
{
    rotate(x, 2) ^ rotate(x, 13) ^ rotate(x, 22)
}

fn big_sigma1_of(x: u32) -> (r: u32)
    ensures
        r == big_sigma1(x),
{
    rotate(x, 6) ^ rotate(x, 11) ^ rotate(x, 25)
}

fn small_sigma0_of(x: u32) -> (r: u32)
    ensures
        r == small_sigma0(x),
{
    rotate(x, 7) ^ rotate(x, 18) ^ (x >> 3u32)
}

fn small_sigma1_of(x: u32) -> (r: u32)
    ensures
        r == small_sigma1(x),
{
    rotate(x, 17) ^ rotate(x, 19) ^ (x >> 10u32)
}

fn push_big_endian(out: &mut Vec<u8>, v: u64, n: usize)
    ensures
        final(out)@ == old(out)@ + big_endian(v as nat, n as nat),
    decreases n,
{
    if n == 0 {
        assert(old(out)@ + big_endian(v as nat, 0) =~= old(out)@);
    } else {
        push_big_endian(out, v / 256, n - 1);
        out.push((v % 256) as u8);
        assert(final(out)@ =~= old(out)@ + big_endian(v as nat, n as nat)) by {
            assert(big_endian(v as nat, n as nat) == big_endian(v as nat / 256, (n - 1) as nat).push(
                (v as nat % 256) as u8,
            ));
        }
    }
}

/// The message with its padding.
fn pad(data: &[u8]) -> (p: Vec<u8>)
    ensures
        p@ == padded(data@),
{
    let mut p: Vec<u8> = Vec::new();
    let mut i: usize = 0;
    while i < data.len()
        invariant
            i <= data.len(),
            p@ == data@.take(i as int),
        decreases data.len() - i,
    {
        p.push(data[i]);
        i = i + 1;
        assert(p@ =~= data@.take(i as int));
    }
    assert(p@ =~= data@);
    p.push(0x80u8);
    let fill = (64 - ((data.len() % 64) + 9) % 64) % 64;
    assert(fill == zero_fill(data@.len()));
    let ghost head = p@;
    let mut k: usize = 0;
    while k < fill
        invariant
            k <= fill,
            p@ == head + Seq::new(k as nat, |i: int| 0u8),
        decreases fill - k,
    {
        p.push(0u8);
        k = k + 1;
        assert(p@ =~= head + Seq::new(k as nat, |i: int| 0u8));
    }
    let bits = (data.len() as u64).wrapping_mul(8);
    assert(bits == (data@.len() * 8) % 0x1_0000_0000_0000_0000) by {
        assert(data@.len() == data.len());
    }
    push_big_endian(&mut p, bits, 8);
    p
}

fn word(p: &Vec<u8>, at: usize) -> (w: u32)
    requires
        at + 4 <= p.len(),
    ensures
        w == word_at(p@, at as int),
{
    (p[at] as u32) * 0x1000000 + (p[at + 1] as u32) * 0x10000 + (p[at + 2] as u32) * 0x100 + (
    p[at + 3] as u32)
}

/// The message schedule of block `b`.
fn message_schedule(p: &Vec<u8>, b: usize) -> (w: Vec<u32>)
    requires
        64 * b + 64 <= p.len(),
    ensures
        w@ == schedule(block_words(p@, b as int), 64),
        w@.len() == 64,
{
    let ghost m = block_words(p@, b as int);
    let mut w: Vec<u32> = Vec::new();
    assert(w@ =~= schedule(m, 0)) by {
        reveal(schedule);
    }
    let mut j: usize = 0;
    while j < 16
        invariant
            j <= 16,
            64 * b + 64 <= p.len(),
            m == block_words(p@, b as int),
            w@ == schedule(m, j as nat),
        decreases 16 - j,
    {
        reveal(schedule);
        let x = word(p, 64 * b + 4 * j);
        w.push(x);
        j = j + 1;
        assert(w@ =~= m.take(j as int));
    }
    assert(w@.len() == 16) by {
        reveal(schedule);
    }
    let mut t: usize = 16;
    while t < 64
        invariant
            16 <= t <= 64,
            w@ == schedule(m, t as nat),
            w@.len() == t,
        decreases 64 - t,
    {
        reveal(schedule);
        let x = wadd(
            wadd(wadd(small_sigma1_of(w[t - 2]), w[t - 7]), small_sigma0_of(w[t - 15])),
            w[t - 16],
        );
        w.push(x);
        t = t + 1;
    }
    w
}

/// The working variables of the compression function, as a sequence.
pub open spec fn working(
    a: u32,
    b: u32,
    c: u32,
    d: u32,
    e: u32,
    f: u32,
    g: u32,
    h: u32,
) -> Seq<u32> {
    seq![a, b, c, d, e, f, g, h]
}

fn compress_block(h: &Vec<u32>, w: &Vec<u32>) -> (r: Vec<u32>)
    requires
        h@.len() == 8,
        w@.len() == 64,
    ensures
        r@ == Seq::new(8, |i: int| add32(h@[i], rounds(h@, w@, 64)[i])),
{
    let k = round_constant_table();
    let mut a = h[0];
    let mut b = h[1];
    let mut c = h[2];
    let mut d = h[3];
    let mut e = h[4];
    let mut f = h[5];
    let mut g = h[6];
    let mut hh = h[7];
    assert(working(a, b, c, d, e, f, g, hh) =~= rounds(h@, w@, 0)) by {
        reveal(rounds);
    }
    let mut t: usize = 0;
    while t < 64
        invariant
            t <= 64,
            h@.len() == 8,
            w@.len() == 64,
            k@ == round_constants(),
            working(a, b, c, d, e, f, g, hh) == rounds(h@, w@, t as nat),
        decreases 64 - t,
    {
        reveal(rounds);
        let ghost prev = working(a, b, c, d, e, f, g, hh);
        let t1 = wadd(
            wadd(wadd(wadd(hh, big_sigma1_of(e)), (e & f) ^ (!e & g)), k[t]),
            w[t],
        );
        let t2 = wadd(big_sigma0_of(a), (a & b) ^ (a & c) ^ (b & c));
        hh = g;
        g = f;
        f = e;
        e = wadd(d, t1);
        d = c;
        c = b;
        b = a;
        a = wadd(t1, t2);
        t = t + 1;
        assert(working(a, b, c, d, e, f, g, hh) =~= round(prev, round_constants()[t - 1], w@[t - 1]));
    }
    let mut r: Vec<u32> = Vec::new();
    r.push(wadd(h[0], a));
    r.push(wadd(h[1], b));
    r.push(wadd(h[2], c));
    r.push(wadd(h[3], d));
    r.push(wadd(h[4], e));
    r.push(wadd(h[5], f));
    r.push(wadd(h[6], g));
    r.push(wadd(h[7], hh));
    assert(r@ =~= Seq::new(8, |i: int| add32(h@[i], rounds(h@, w@, 64)[i])));
    r
}

proof fn lemma_padded_blocks(msg: Seq<u8>)
    ensures
        padded(msg).len() % 64 == 0,
{
    lemma_big_endian_len((msg.len() * 8) % 0x1_0000_0000_0000_0000, 8);
}

proof fn lemma_big_endian_len(v: nat, n: nat)
    ensures
        big_endian(v, n).len() == n,
    decreases n,
{
    if n > 0 {
        lemma_big_endian_len(v / 256, (n - 1) as nat);
    }
}

/// The SHA-256 digest of `data`.
pub fn sha256(data: &[u8]) -> (d: Vec<u8>)
    ensures
        d@ == digest(data@),
{
    let p = pad(data);
    proof {
        lemma_padded_blocks(data@);
    }
    let blocks = p.len() / 64;
    let mut h = initial_state_table();
    let mut b: usize = 0;
    while b < blocks
        invariant
            b <= blocks,
            blocks == p@.len() / 64,
            p@.len() % 64 == 0,
            h@.len() == 8,
            h@ == hash_blocks(p@, b as nat),
        decreases blocks - b,
    {
        assert(64 * b + 64 <= p@.len()) by (nonlinear_arith)
            requires
                b < blocks,
                blocks == p@.len() / 64,
        ;
        let ghost prev = h@;
        let w = message_schedule(&p, b);
        h = compress_block(&h, &w);
        assert(h@ == compress(prev, block_words(p@, b as int)));
        b = b + 1;
    }
    let mut out: Vec<u8> = Vec::new();
    let mut i: usize = 0;
    while i < 8
        invariant
            i <= 8,
            h@.len() == 8,
            out@ == state_bytes(h@).take(4 * i as int),
        decreases 8 - i,
    {
        let x = h[i];
        out.push((x / 0x1000000) as u8);
        out.push(((x / 0x10000) % 256) as u8);
        out.push(((x / 0x100) % 256) as u8);
        out.push((x % 256) as u8);
        i = i + 1;
        assert(out@ =~= state_bytes(h@).take(4 * i as int));
    }
    assert(out@ =~= state_bytes(h@));
    out
}

fn hex_digit_char(d: u8) -> (c: char)
    requires
        d < 16,
    ensures
        c == hex_char(d),
{
    if d < 10 {
        (d + 48) as char
    } else {
        (d + 87) as char
    }
}

/// Lower-case hexadecimal, two digits per byte.
pub fn to_hex(bytes: &[u8]) -> (s: String)
    ensures
        s@ == hex(bytes@),
{
    let mut out: Vec<char> = Vec::new();
    let mut i: usize = 0;
    while i < bytes.len()
        invariant
            i <= bytes.len(),
            out@ == hex(bytes@).take(2 * i as int),
        decreases bytes.len() - i,
    {
        out.push(hex_digit_char(bytes[i] / 16));
        out.push(hex_digit_char(bytes[i] % 16));
        i = i + 1;
        assert(out@ =~= hex(bytes@).take(2 * i as int));
    }
    assert(out@ =~= hex(bytes@));
    crate::text::string_from(out.as_slice())
}

/// The digest of `data` in lower-case hexadecimal.
pub fn sha256_hex(data: &[u8]) -> (s: String)
    ensures
        s@ == hex(digest(data@)),
{
    let d = sha256(data);
    to_hex(d.as_slice())
}

} // verus!
