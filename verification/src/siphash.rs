use vstd::prelude::*;

verus! {

/// The four words of SipHash's internal state.
#[derive(Clone, Copy, Debug, PartialEq, Eq, Structural)]
pub struct SipState {
    pub v0: u64,
    pub v1: u64,
    pub v2: u64,
    pub v3: u64,
}

/// `x` rotated left by `b` bits, for `0 < b < 64`.
pub open spec fn rotate_left(x: u64, b: u64) -> u64 {
    (x << b) | (x >> ((64 - b) as u64))
}

/// One SipRound.
pub open spec fn sip_round(s: SipState) -> SipState {
    let v0 = s.v0.wrapping_add(s.v1);
    let v1 = rotate_left(s.v1, 13) ^ v0;
    let v0 = rotate_left(v0, 32);
    let v2 = s.v2.wrapping_add(s.v3);
    let v3 = rotate_left(s.v3, 16) ^ v2;
    let v0 = v0.wrapping_add(v3);
    let v3 = rotate_left(v3, 21) ^ v0;
    let v2 = v2.wrapping_add(v1);
    let v1 = rotate_left(v1, 17) ^ v2;
    let v2 = rotate_left(v2, 32);
    SipState { v0, v1, v2, v3 }
}

/// The state after one message word, with one compression round.
pub open spec fn compress(s: SipState, m: u64) -> SipState {
    let r = sip_round(SipState { v0: s.v0, v1: s.v1, v2: s.v2, v3: s.v3 ^ m });
    SipState { v0: r.v0 ^ m, v1: r.v1, v2: r.v2, v3: r.v3 }
}

/// The little-endian number made of `count` bytes, from position `at` on.
pub open spec fn le_word(bytes: Seq<u8>, at: int, count: nat) -> u64
    decreases count,
{
    if count == 0 {
        0
    } else {
        le_word(bytes, at, (count - 1) as nat) | ((bytes[at + count - 1] as u64) << ((8 * (count
            - 1)) as u64))
    }
}

/// The state after the first `blocks` words of eight bytes.
pub open spec fn absorb(s: SipState, bytes: Seq<u8>, blocks: nat) -> SipState
    decreases blocks,
{
    if blocks == 0 {
        s
    } else {
        compress(absorb(s, bytes, (blocks - 1) as nat), le_word(bytes, 8 * (blocks - 1), 8))
    }
}

/// The state that SipHash starts from, with both key words zero.
pub open spec fn initial_state() -> SipState {
    SipState {
        v0: 0x736f6d6570736575,
        v1: 0x646f72616e646f6d,
        v2: 0x6c7967656e657261,
        v3: 0x7465646279746573,
    }
}

/// The last message word: the bytes left over, and the length modulo 256 on top.
pub open spec fn last_word(bytes: Seq<u8>) -> u64 {
    let blocks = bytes.len() / 8;
    le_word(bytes, (8 * blocks) as int, (bytes.len() % 8) as nat) | (((bytes.len() % 256) as u64) << 56)
}

/// SipHash-1-3 of a byte string, with both key words zero: one round for
/// each message word, three to finish.
pub open spec fn siphash13(bytes: Seq<u8>) -> u64 {
    let s = compress(absorb(initial_state(), bytes, bytes.len() / 8), last_word(bytes));
    let f = sip_round(
        sip_round(sip_round(SipState { v0: s.v0, v1: s.v1, v2: s.v2 ^ 0xff, v3: s.v3 })),
    );
    f.v0 ^ f.v1 ^ f.v2 ^ f.v3
}

fn rotl(x: u64, b: u64) -> (r: u64)
    requires
        0 < b < 64,
    ensures
        r == rotate_left(x, b),
{
    (x << b) | (x >> (64 - b))
}

fn round(s: SipState) -> (r: SipState)
    ensures
        r == sip_round(s),
{
    let v0 = s.v0.wrapping_add(s.v1);
    let v1 = rotl(s.v1, 13) ^ v0;
    let v0 = rotl(v0, 32);
    let v2 = s.v2.wrapping_add(s.v3);
    let v3 = rotl(s.v3, 16) ^ v2;
    let v0 = v0.wrapping_add(v3);
    let v3 = rotl(v3, 21) ^ v0;
    let v2 = v2.wrapping_add(v1);
    let v1 = rotl(v1, 17) ^ v2;
    let v2 = rotl(v2, 32);
    SipState { v0, v1, v2, v3 }
}

fn compress_word(s: SipState, m: u64) -> (r: SipState)
    ensures
        r == compress(s, m),
{
    let r = round(SipState { v0: s.v0, v1: s.v1, v2: s.v2, v3: s.v3 ^ m });
    SipState { v0: r.v0 ^ m, v1: r.v1, v2: r.v2, v3: r.v3 }
}

fn read_word(bytes: &[u8], at: usize, count: usize) -> (w: u64)
    requires
        count <= 8,
        at + count <= bytes@.len(),
    ensures
        w == le_word(bytes@, at as int, count as nat),
{
    let n = bytes.len();
    let mut w: u64 = 0;
    let mut k: usize = 0;
    while k < count
        invariant
            k <= count <= 8,
            at + count <= n,
            n == bytes@.len(),
            w == le_word(bytes@, at as int, k as nat),
        decreases count - k,
    {
        let shift: u64 = 8 * (k as u64);
        w = w | ((bytes[at + k] as u64) << shift);
        k = k + 1;
    }
    w
}

/// Hashes a byte string with SipHash-1-3, both key words zero.
pub fn hash(bytes: &[u8]) -> (h: u64)
    ensures
        h == siphash13(bytes@),
{
    let n = bytes.len();
    let blocks = n / 8;
    let mut s = SipState {
        v0: 0x736f6d6570736575,
        v1: 0x646f72616e646f6d,
        v2: 0x6c7967656e657261,
        v3: 0x7465646279746573,
    };
    let mut i: usize = 0;
    while i < blocks
        invariant
            i <= blocks,
            blocks == n / 8,
            n == bytes@.len(),
            s == absorb(initial_state(), bytes@, i as nat),
        decreases blocks - i,
    {
        let m = read_word(bytes, 8 * i, 8);
        s = compress_word(s, m);
        i = i + 1;
    }
    let tail = read_word(bytes, 8 * blocks, n % 8);
    let length_byte: u64 = (n % 256) as u64;
    let last = tail | (length_byte << 56);
    s = compress_word(s, last);
    let f = round(round(round(SipState { v0: s.v0, v1: s.v1, v2: s.v2 ^ 0xff, v3: s.v3 })));
    f.v0 ^ f.v1 ^ f.v2 ^ f.v3
}

} // verus!
