//! SHA-1 (FIPS 180-1), used for content addressing.
//!
//! The digest is used exactly the way git does: as a content-addressing
//! function inside a local, trusted object store, not as a security boundary
//! against adversarial collisions. Blob ids are computed over
//! `blob <len>\0<bytes>`, which makes them byte-for-byte identical to git
//! blob ids, so any blob can be cross-checked with `git hash-object <file>`.

use vstd::prelude::*;

verus! {

/// Addition of words, modulo 2^32.
pub open spec fn plus(x: u32, y: u32) -> u32 {
    ((x + y) % 0x1_0000_0000) as u32
}

/// Rotation of a word to the left by `n` bits.
pub open spec fn rotated(x: u32, n: u32) -> u32 {
    (x << n) | (x >> ((32 - n) as u32))
}

/// The big-endian word at byte `i`.
pub open spec fn word_at(bytes: Seq<u8>, i: int) -> u32 {
    ((bytes[i] as u32) << 24) | ((bytes[i + 1] as u32) << 16) | ((bytes[i + 2] as u32) << 8) | (
    bytes[i + 3] as u32)
}

/// The big-endian bytes of a word.
pub open spec fn word_bytes(w: u32) -> Seq<u8> {
    seq![
        (w / 0x100_0000) as u8,
        (w / 0x1_0000 % 0x100) as u8,
        (w / 0x100 % 0x100) as u8,
        (w % 0x100) as u8,
    ]
}

/// The length of a message in bits, modulo 2^64, as two words.
pub open spec fn length_bytes(len: nat) -> Seq<u8> {
    let bits = (len * 8) % 0x1_0000_0000_0000_0000;
    word_bytes((bits / 0x1_0000_0000) as u32) + word_bytes((bits % 0x1_0000_0000) as u32)
}

/// How many zero bytes the padding holds.
pub open spec fn zero_count(len: nat) -> nat {
    ((119 - len % 64) % 64) as nat
}

/// The padded message: a one bit, zeros to 56 mod 64 bytes, the bit length.
pub open spec fn padded(data: Seq<u8>) -> Seq<u8> {
    data.push(0x80) + Seq::new(zero_count(data.len()), |i: int| 0u8) + length_bytes(data.len())
}

/// Word `t` of the message schedule of a block.
pub open spec fn schedule(block: Seq<u8>, t: int) -> u32
    decreases t,
{
    if t < 16 {
        word_at(block, 4 * t)
    } else {
        rotated(
            schedule(block, t - 3) ^ schedule(block, t - 8) ^ schedule(block, t - 14) ^ schedule(
                block,
                t - 16,
            ),
            1,
        )
    }
}

/// The five words of the chaining state.
#[derive(Debug, Clone, Copy, PartialEq, Eq, Structural)]
pub struct State {
    pub a: u32,
    pub b: u32,
    pub c: u32,
    pub d: u32,
    pub e: u32,
}

/// The state before the first block.
pub open spec fn initial_state() -> State {
    State { a: 0x6745_2301, b: 0xEFCD_AB89, c: 0x98BA_DCFE, d: 0x1032_5476, e: 0xC3D2_E1F0 }
}

/// The function of round `t`.
pub open spec fn round_mix(t: int, b: u32, c: u32, d: u32) -> u32 {
    if t < 20 {
        (b & c) | (!b & d)
    } else if t < 40 {
        b ^ c ^ d
    } else if t < 60 {
        (b & c) | (b & d) | (c & d)
    } else {
        b ^ c ^ d
    }
}

/// The constant of round `t`.
pub open spec fn round_constant(t: int) -> u32 {
    if t < 20 {
        0x5A82_7999
    } else if t < 40 {
        0x6ED9_EBA1
    } else if t < 60 {
        0x8F1B_BCDC
    } else {
        0xCA62_C1D6
    }
}

/// Round `t` with schedule word `w`.
pub open spec fn round(s: State, t: int, w: u32) -> State {
    State {
        a: plus(
            plus(
                plus(plus(rotated(s.a, 5), round_mix(t, s.b, s.c, s.d)), s.e),
                round_constant(t),
            ),
            w,
        ),
        b: s.a,
        c: rotated(s.b, 30),
        d: s.c,
        e: s.d,
    }
}

/// The state after the first `t` rounds on a block.
pub open spec fn rounds(s: State, block: Seq<u8>, t: int) -> State
    decreases t,
{
    if t <= 0 {
        s
    } else {
        round(rounds(s, block, t - 1), t - 1, schedule(block, t - 1))
    }
}

/// The state after one more block.
pub open spec fn compressed(s: State, block: Seq<u8>) -> State {
    let r = rounds(s, block, 80);
    State {
        a: plus(s.a, r.a),
        b: plus(s.b, r.b),
        c: plus(s.c, r.c),
        d: plus(s.d, r.d),
        e: plus(s.e, r.e),
    }
}

/// The state after the first `n` blocks of a padded message.
pub open spec fn after_blocks(msg: Seq<u8>, n: int) -> State
    decreases n,
{
    if n <= 0 {
        initial_state()
    } else {
        compressed(after_blocks(msg, n - 1), msg.subrange(64 * (n - 1), 64 * n))
    }
}

/// The SHA-1 digest of a message.
#[verifier::opaque]
pub open spec fn sha1(data: Seq<u8>) -> Seq<u8> {
    let msg = padded(data);
    let s = after_blocks(msg, msg.len() as int / 64);
    word_bytes(s.a) + word_bytes(s.b) + word_bytes(s.c) + word_bytes(s.d) + word_bytes(s.e)
}

/// The hex digit of `n`, for `n` below sixteen.
pub open spec fn hex_digit(n: u8) -> char {
    if n < 10 {
        (48 + n) as u8 as char
    } else {
        (87 + n) as u8 as char
    }
}

/// Two lowercase hex digits per byte.
pub open spec fn hex_of(bytes: Seq<u8>) -> Seq<char>
    decreases bytes.len(),
{
    if bytes.len() == 0 {
        Seq::empty()
    } else {
        hex_of(bytes.drop_last()).push(hex_digit((bytes.last() / 16) as u8)).push(
            hex_digit((bytes.last() % 16) as u8),
        )
    }
}

/// The digest of `data` in hex.
pub open spec fn sha1_hex(data: Seq<u8>) -> Seq<char> {
    hex_of(sha1(data))
}

fn wrap_sum(x: u32, y: u32) -> (r: u32)
    ensures
        r == plus(x, y),
{
    x.wrapping_add(y)
}

fn rotate(x: u32, n: u32) -> (r: u32)
    requires
        0 < n < 32,
    ensures
        r == rotated(x, n),
{
    (x << n) | (x >> (32 - n))
}

fn push_word(out: &mut Vec<u8>, w: u32)
    ensures
        final(out)@ == old(out)@ + word_bytes(w),
{
    out.push((w / 0x100_0000) as u8);
    out.push((w / 0x1_0000 % 0x100) as u8);
    out.push((w / 0x100 % 0x100) as u8);
    out.push((w % 0x100) as u8);
    assert(out@ =~= old(out)@ + word_bytes(w));
}

/// The padding fills up whole blocks.
proof fn lemma_padded_len(data: Seq<u8>)
    ensures
        padded(data).len() == data.len() + 1 + zero_count(data.len()) + 8,
        padded(data).len() % 64 == 0,
{
    let len = data.len() as int;
    let z = zero_count(data.len()) as int;
    assert((len + 1 + z + 8) % 64 == 0) by {
        let r = len % 64;
        assert(len == 64 * (len / 64) + r);
        assert(z == if r <= 55 {
            55 - r
        } else {
            119 - r
        });
    }
}

fn bit_length(len: usize) -> (bits: u64)
    ensures
        bits == (len * 8) % 0x1_0000_0000_0000_0000,
{
    (len as u64).wrapping_mul(8)
}

fn pad(data: &[u8]) -> (msg: Vec<u8>)
    ensures
        msg@ == padded(data@),
        msg@.len() % 64 == 0,
{
    let mut msg: Vec<u8> = Vec::new();
    msg.extend_from_slice(data);
    assert(msg@ =~= data@);
    msg.push(0x80);
    let zeros: usize = (119 - data.len() % 64) % 64;
    let ghost head = data@.push(0x80);
    let mut i: usize = 0;
    assert(msg@ =~= head + Seq::new(0nat, |i: int| 0u8));
    while i < zeros
        invariant
            i <= zeros,
            msg@ == head + Seq::new(i as nat, |i: int| 0u8),
        decreases zeros - i,
    {
        msg.push(0);
        i = i + 1;
        assert(msg@ =~= head + Seq::new(i as nat, |i: int| 0u8));
    }
    let bits: u64 = bit_length(data.len());
    push_word(&mut msg, (bits / 0x1_0000_0000) as u32);
    push_word(&mut msg, (bits % 0x1_0000_0000) as u32);
    assert(msg@ =~= padded(data@));
    proof {
        lemma_padded_len(data@);
    }
    msg
}

fn expand(msg: &Vec<u8>, at: usize) -> (w: Vec<u32>)
    requires
        at + 64 <= msg@.len(),
    ensures
        w@.len() == 80,
        forall|t: int|
            0 <= t < 80 ==> #[trigger] w@[t] == schedule(
                msg@.subrange(at as int, at + 64),
                t,
            ),
{
    let ghost block = msg@.subrange(at as int, at + 64);
    let mut w: Vec<u32> = Vec::new();
    let end: usize = msg.len();
    while w.len() < 16
        invariant
            at + 64 <= end,
            end == msg@.len(),
            block == msg@.subrange(at as int, at + 64),
            w@.len() <= 16,
            forall|t: int| 0 <= t < w@.len() ==> #[trigger] w@[t] == schedule(block, t),
        decreases 16 - w@.len(),
    {
        let i: usize = at + 4 * w.len();
        w.push(
            ((msg[i] as u32) << 24) | ((msg[i + 1] as u32) << 16) | ((msg[i + 2] as u32) << 8) | (
            msg[i + 3] as u32),
        );
    }
    while w.len() < 80
        invariant
            16 <= w@.len() <= 80,
            forall|t: int| 0 <= t < w@.len() ==> #[trigger] w@[t] == schedule(block, t),
        decreases 80 - w@.len(),
    {
        let t: usize = w.len();
        let x: u32 = w[t - 3] ^ w[t - 8] ^ w[t - 14] ^ w[t - 16];
        w.push(rotate(x, 1));
    }
    w
}

fn compress(h: State, msg: &Vec<u8>, at: usize) -> (r: State)
    requires
        at + 64 <= msg@.len(),
    ensures
        r == compressed(h, msg@.subrange(at as int, at + 64)),
{
    let ghost block = msg@.subrange(at as int, at + 64);
    let w = expand(msg, at);
    let mut s = h;
    let mut t: usize = 0;
    while t < 80
        invariant
            t <= 80,
            w@.len() == 80,
            forall|i: int| 0 <= i < 80 ==> #[trigger] w@[i] == schedule(block, i),
            s == rounds(h, block, t as int),
        decreases 80 - t,
    {
        let (f, k): (u32, u32) = if t < 20 {
            ((s.b & s.c) | (!s.b & s.d), 0x5A82_7999)
        } else if t < 40 {
            (s.b ^ s.c ^ s.d, 0x6ED9_EBA1)
        } else if t < 60 {
            ((s.b & s.c) | (s.b & s.d) | (s.c & s.d), 0x8F1B_BCDC)
        } else {
            (s.b ^ s.c ^ s.d, 0xCA62_C1D6)
        };
        let x: u32 = wrap_sum(wrap_sum(wrap_sum(wrap_sum(rotate(s.a, 5), f), s.e), k), w[t]);
        s = State { a: x, b: s.a, c: rotate(s.b, 30), d: s.c, e: s.d };
        t = t + 1;
    }
    State {
        a: wrap_sum(h.a, s.a),
        b: wrap_sum(h.b, s.b),
        c: wrap_sum(h.c, s.c),
        d: wrap_sum(h.d, s.d),
        e: wrap_sum(h.e, s.e),
    }
}

/// Compute the SHA-1 digest of `data` as its twenty bytes in a vector.
fn digest_bytes(data: &[u8]) -> (out: Vec<u8>)
    ensures
        out@ == sha1(data@),
        out@.len() == 20,
{
    let msg = pad(data);
    let mut h = State {
        a: 0x6745_2301,
        b: 0xEFCD_AB89,
        c: 0x98BA_DCFE,
        d: 0x1032_5476,
        e: 0xC3D2_E1F0,
    };
    let count: usize = msg.len() / 64;
    let mut n: usize = 0;
    while n < count
        invariant
            n <= count,
            64 * count <= msg@.len() <= usize::MAX,
            h == after_blocks(msg@, n as int),
        decreases count - n,
    {
        let at: usize = 64 * n;
        h = compress(h, &msg, at);
        n = n + 1;
        assert(msg@.subrange(64 * (n - 1), 64 * n) == msg@.subrange(at as int, at + 64));
    }
    let mut out: Vec<u8> = Vec::new();
    push_word(&mut out, h.a);
    push_word(&mut out, h.b);
    push_word(&mut out, h.c);
    push_word(&mut out, h.d);
    push_word(&mut out, h.e);
    reveal(sha1);
    assert(out@ =~= sha1(data@));
    out
}

/// Compute the raw 20-byte SHA-1 digest of `data`.
pub fn digest(data: &[u8]) -> (r: [u8; 20])
    ensures
        r@ == sha1(data@),
{
    let bytes = digest_bytes(data);
    let mut out: [u8; 20] = [0u8; 20];
    let mut i: usize = 0;
    while i < 20
        invariant
            i <= 20,
            bytes@.len() == 20,
            forall|j: int| 0 <= j < i ==> out@[j] == bytes@[j],
        decreases 20 - i,
    {
        out[i] = bytes[i];
        i = i + 1;
    }
    assert(out@ =~= bytes@);
    out
}

pub(crate) fn push_hex_digit(out: &mut String, n: u8)
    requires
        n < 16,
    ensures
        final(out)@ == old(out)@.push(hex_digit(n)),
{
    if n < 10 {
        out.push((48 + n) as char);
    } else {
        out.push((87 + n) as char);
    }
}

/// Compute the SHA-1 digest of `data` as a lowercase hex string.
pub fn hex(data: &[u8]) -> (r: String)
    ensures
        r@ == sha1_hex(data@),
{
    let bytes = digest(data);
    let mut out = String::new();
    let mut i: usize = 0;
    assert(bytes@.take(0) =~= Seq::<u8>::empty());
    while i < 20
        invariant
            i <= 20,
            out@ == hex_of(bytes@.take(i as int)),
        decreases 20 - i,
    {
        assert(bytes@.take(i + 1).drop_last() =~= bytes@.take(i as int));
        push_hex_digit(&mut out, bytes[i] / 16);
        push_hex_digit(&mut out, bytes[i] % 16);
        i = i + 1;
    }
    assert(bytes@.take(20) =~= bytes@);
    out
}

/// A digest has twenty bytes.
pub proof fn lemma_digest_len(data: Seq<u8>)
    ensures
        sha1(data).len() == 20,
{
    reveal(sha1);
}

/// Hex text has two digits per byte, each lowercase.
pub proof fn lemma_hex_of(bytes: Seq<u8>)
    ensures
        hex_of(bytes).len() == 2 * bytes.len(),
        forall|i: int|
            0 <= i < hex_of(bytes).len() ==> {
                let c = #[trigger] hex_of(bytes)[i];
                '0' <= c <= '9' || 'a' <= c <= 'f'
            },
    decreases bytes.len(),
{
    if bytes.len() > 0 {
        lemma_hex_of(bytes.drop_last());
        let head = hex_of(bytes.drop_last());
        assert forall|i: int| 0 <= i < hex_of(bytes).len() implies {
            let c = #[trigger] hex_of(bytes)[i];
            '0' <= c <= '9' || 'a' <= c <= 'f'
        } by {
            if i < head.len() {
                assert(hex_of(bytes)[i] == head[i]);
            }
        }
    }
}

} // verus!
