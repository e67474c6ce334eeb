//! The MD5 message digest, used to compare decoded frames with checksums.

use vstd::prelude::*;
use vstd::string::{StrSliceExecFns, StringExecFns};
use crate::common::{
    le_bytes, le_value, lemma_le_bytes_len, lemma_le_round_trip, push_bytes, push_le,
};

verus! {

/// Rotation of each step.
pub const SHIFTS: [u32; 64] = [
    7, 12, 17, 22, 7, 12, 17, 22, 7, 12, 17, 22, 7, 12, 17, 22,
    5, 9, 14, 20, 5, 9, 14, 20, 5, 9, 14, 20, 5, 9, 14, 20,
    4, 11, 16, 23, 4, 11, 16, 23, 4, 11, 16, 23, 4, 11, 16, 23,
    6, 10, 15, 21, 6, 10, 15, 21, 6, 10, 15, 21, 6, 10, 15, 21,
];

/// Constant of each step: the integer part of `abs(sin(i + 1)) * 2^32`.
pub const K: [u32; 64] = [
    0xd76aa478, 0xe8c7b756, 0x242070db, 0xc1bdceee, 0xf57c0faf, 0x4787c62a, 0xa8304613, 0xfd469501,
    0x698098d8, 0x8b44f7af, 0xffff5bb1, 0x895cd7be, 0x6b901122, 0xfd987193, 0xa679438e, 0x49b40821,
    0xf61e2562, 0xc040b340, 0x265e5a51, 0xe9b6c7aa, 0xd62f105d, 0x02441453, 0xd8a1e681, 0xe7d3fbc8,
    0x21e1cde6, 0xc33707d6, 0xf4d50d87, 0x455a14ed, 0xa9e3e905, 0xfcefa3f8, 0x676f02d9, 0x8d2a4c8a,
    0xfffa3942, 0x8771f681, 0x6d9d6122, 0xfde5380c, 0xa4beea44, 0x4bdecfa9, 0xf6bb4b60, 0xbebfbc70,
    0x289b7ec6, 0xeaa127fa, 0xd4ef3085, 0x04881d05, 0xd9d4d039, 0xe6db99e5, 0x1fa27cf8, 0xc4ac5665,
    0xf4292244, 0x432aff97, 0xab9423a7, 0xfc93a039, 0x655b59c3, 0x8f0ccc92, 0xffeff47d, 0x85845dd1,
    0x6fa87e4f, 0xfe2ce6e0, 0xa3014314, 0x4e0811a1, 0xf7537e82, 0xbd3af235, 0x2ad7d2bb, 0xeb86d391,
];

/// The four words of the digest state.
pub struct Words {
    pub a: u32,
    pub b: u32,
    pub c: u32,
    pub d: u32,
}

/// The sum modulo `2^32`.
pub open spec fn wadd(x: u32, y: u32) -> u32 {
    ((x + y) % 0x1_0000_0000) as u32
}

/// The word turned left by `s` bits.
pub open spec fn rotated(x: u32, s: u32) -> u32 {
    (x << s) | (x >> ((32 - s) as u32))
}

/// The nonlinear function of step `i`.
pub open spec fn mix(i: int, b: u32, c: u32, d: u32) -> u32 {
    if i < 16 {
        (b & c) | (!b & d)
    } else if i < 32 {
        (d & b) | (!d & c)
    } else if i < 48 {
        b ^ c ^ d
    } else {
        c ^ (b | !d)
    }
}

/// The message word of step `i`.
pub open spec fn word_of_step(i: int) -> int {
    if i < 16 {
        i
    } else if i < 32 {
        (5 * i + 1) % 16
    } else if i < 48 {
        (3 * i + 5) % 16
    } else {
        (7 * i) % 16
    }
}

/// One step on the state.
pub open spec fn step(i: int, s: Words, m: Seq<u32>) -> Words {
    let f = wadd(wadd(wadd(mix(i, s.b, s.c, s.d), s.a), K[i]), m[word_of_step(i)]);
    Words { a: s.d, b: wadd(s.b, rotated(f, SHIFTS[i])), c: s.b, d: s.c }
}

/// The first `n` steps on the state.
pub open spec fn steps(n: nat, s: Words, m: Seq<u32>) -> Words
    decreases n,
{
    if n == 0 {
        s
    } else {
        step(n - 1, steps((n - 1) as nat, s, m), m)
    }
}

/// The sixteen little-endian words of a 64-byte block.
pub open spec fn block_words(block: Seq<u8>) -> Seq<u32> {
    Seq::new(16, |i: int| le_value(block.subrange(4 * i, 4 * i + 4)) as u32)
}

/// The state after one more block.
pub open spec fn absorb(s: Words, block: Seq<u8>) -> Words {
    let t = steps(64, s, block_words(block));
    Words { a: wadd(s.a, t.a), b: wadd(s.b, t.b), c: wadd(s.c, t.c), d: wadd(s.d, t.d) }
}

/// The initial state.
pub open spec fn initial_words() -> Words {
    Words { a: 0x67452301, b: 0xefcdab89, c: 0x98badcfe, d: 0x10325476 }
}

/// The state after the first `n` blocks of a message.
pub open spec fn absorb_blocks(msg: Seq<u8>, n: nat) -> Words
    decreases n,
{
    if n == 0 {
        initial_words()
    } else {
        absorb(absorb_blocks(msg, (n - 1) as nat), msg.subrange(64 * (n - 1), 64 * (n as int)))
    }
}

/// Number of zero bytes that bring a message of `len` bytes, with the end byte,
/// to 56 modulo 64.
pub open spec fn zero_padding(len: int) -> int {
    (55 - len) % 64
}

/// The message padded to whole blocks: an end byte, zeros, and the length in
/// bits.
pub open spec fn padded_message(data: Seq<u8>) -> Seq<u8> {
    data + seq![0x80u8] + Seq::new(zero_padding(data.len() as int) as nat, |i: int| 0u8)
        + le_bytes(8 * data.len() as int, 8)
}

/// The digest: the final state's words, least significant byte first.
pub open spec fn spec_md5(data: Seq<u8>) -> Seq<u8> {
    let msg = padded_message(data);
    let s = absorb_blocks(msg, msg.len() / 64);
    le_bytes(s.a as int, 4) + le_bytes(s.b as int, 4) + le_bytes(s.c as int, 4) + le_bytes(
        s.d as int,
        4,
    )
}

/// A padded message is made of whole blocks.
pub proof fn lemma_padded_len(data: Seq<u8>)
    ensures
        padded_message(data).len() % 64 == 0,
        data.len() + 9 <= padded_message(data).len() <= data.len() + 72,
{
    lemma_le_bytes_len(8 * data.len() as int, 8);
}

/// A padded message starts with the message and a set bit, and ends with the length in
/// bits in eight bytes, the least significant first; all between are zeros.
pub proof fn lemma_padding(data: Seq<u8>, i: int)
    requires
        data.len() < 0x1000_0000_0000_0000,
    ensures
        ({
            let m = padded_message(data);
            let n = m.len() as int;
            &&& m.subrange(0, data.len() as int) == data
            &&& m[data.len() as int] == 0x80
            &&& data.len() < i < n - 8 ==> m[i] == 0
            &&& le_value(m.subrange(n - 8, n)) == 8 * data.len()
        }),
{
    let m = padded_message(data);
    let n = m.len() as int;
    let tail = le_bytes(8 * data.len() as int, 8);
    lemma_le_bytes_len(8 * data.len() as int, 8);
    assert(vstd::arithmetic::power::pow(256, 8) == 0x1_0000_0000_0000_0000) by {
        reveal_with_fuel(vstd::arithmetic::power::pow, 9);
    }
    lemma_le_round_trip(8 * data.len() as int, 8);
    assert(m.subrange(0, data.len() as int) =~= data);
    assert(m.subrange(n - 8, n) =~= tail);
}

fn wrapping_sum(x: u32, y: u32) -> (r: u32)
    ensures
        r == wadd(x, y),
{
    ((x as u64 + y as u64) % 0x1_0000_0000) as u32
}

/// Every rotation is by 4 to 23 bits.
proof fn lemma_shift_range(i: int)
    requires
        0 <= i < 64,
    ensures
        4 <= SHIFTS[i] <= 23,
{
    let table = SHIFTS@;
    assert(forall|k: int| 0 <= k < 64 ==> 4 <= #[trigger] table[k] <= 23);
}

/// Adds one block to the state.
fn process_block(state: &Words, block: &[u8]) -> (r: Words)
    requires
        block.len() == 64,
    ensures
        r == absorb(*state, block@),
{
    let mut m: Vec<u32> = Vec::with_capacity(16);
    for i in 0..16usize
        invariant
            block.len() == 64,
            m.len() == i,
            forall|k: int| 0 <= k < i ==> #[trigger] m[k] == block_words(block@)[k],
    {
        let w: u32 = read_word(block, 4 * i);
        m.push(w);
    }
    assert(m@ =~= block_words(block@));
    let mut a: u32 = state.a;
    let mut b: u32 = state.b;
    let mut c: u32 = state.c;
    let mut d: u32 = state.d;
    for i in 0..64usize
        invariant
            m@ == block_words(block@),
            m.len() == 16,
            (Words { a, b, c, d }) == steps(i as nat, *state, block_words(block@)),
    {
        proof {
            lemma_shift_range(i as int);
        }
        let mixed: u32 = if i < 16 {
            (b & c) | (!b & d)
        } else if i < 32 {
            (d & b) | (!d & c)
        } else if i < 48 {
            b ^ c ^ d
        } else {
            c ^ (b | !d)
        };
        let g: usize = if i < 16 {
            i
        } else if i < 32 {
            (5 * i + 1) % 16
        } else if i < 48 {
            (3 * i + 5) % 16
        } else {
            (7 * i) % 16
        };
        let f: u32 = wrapping_sum(wrapping_sum(wrapping_sum(mixed, a), K[i]), m[g]);
        let shift: u32 = SHIFTS[i];
        let turned: u32 = (f << shift) | (f >> (32 - shift));
        a = d;
        d = c;
        c = b;
        b = wrapping_sum(b, turned);
    }
    Words {
        a: wrapping_sum(state.a, a),
        b: wrapping_sum(state.b, b),
        c: wrapping_sum(state.c, c),
        d: wrapping_sum(state.d, d),
    }
}

fn read_word(block: &[u8], at: usize) -> (w: u32)
    requires
        at + 4 <= block.len(),
    ensures
        w == le_value(block@.subrange(at as int, at + 4)),
{
    proof {
        let s = block@.subrange(at as int, at + 4);
        assert(s.skip(1).skip(1).skip(1).skip(1).len() == 0);
        reveal_with_fuel(le_value, 5);
    }
    block[at] as u32 + 256 * (block[at + 1] as u32 + 256 * (block[at + 2] as u32 + 256 * (
    block[at + 3] as u32)))
}

/// The MD5 digest of `data`.
pub fn md5(data: &[u8]) -> (digest: [u8; 16])
    requires
        data.len() + 72 <= usize::MAX,
    ensures
        digest@ == spec_md5(data@),
{
    let mut padded: Vec<u8> = Vec::with_capacity(data.len() + 72);
    push_bytes(&mut padded, data);
    padded.push(0x80);
    let ghost head = padded@;
    assert(head =~= data@ + seq![0x80u8]);
    let mut zeros: usize = 0;
    while padded.len() % 64 != 56
        invariant
            data.len() + 72 <= usize::MAX,
            head.len() == data.len() + 1,
            zeros <= 63,
            padded@ == head + Seq::new(zeros as nat, |i: int| 0u8),
            zeros <= zero_padding(data.len() as int),
        decreases 64 - zeros,
    {
        padded.push(0);
        zeros += 1;
        assert(padded@ =~= head + Seq::new(zeros as nat, |i: int| 0u8));
    }
    assert(zeros == zero_padding(data.len() as int));
    push_le(&mut padded, data.len() as u128 * 8, 8);
    assert(padded@ =~= padded_message(data@));
    proof {
        lemma_padded_len(data@);
    }
    let blocks: usize = padded.len() / 64;
    let mut state: Words = Words { a: 0x67452301, b: 0xefcdab89, c: 0x98badcfe, d: 0x10325476 };
    for n in 0..blocks
        invariant
            padded@ == padded_message(data@),
            64 * blocks == padded.len(),
            state == absorb_blocks(padded@, n as nat),
    {
        let block: &[u8] = &padded.as_slice()[64 * n..64 * n + 64];
        let next: Words = process_block(&state, block);
        state = next;
    }
    let mut out: Vec<u8> = Vec::with_capacity(16);
    push_le(&mut out, state.a as u128, 4);
    push_le(&mut out, state.b as u128, 4);
    push_le(&mut out, state.c as u128, 4);
    push_le(&mut out, state.d as u128, 4);
    assert(out@ =~= spec_md5(data@));
    proof {
        lemma_le_bytes_len(state.a as int, 4);
        lemma_le_bytes_len(state.b as int, 4);
        lemma_le_bytes_len(state.c as int, 4);
        lemma_le_bytes_len(state.d as int, 4);
    }
    let mut digest: [u8; 16] = [0; 16];
    for i in 0..16usize
        invariant
            out.len() == 16,
            forall|k: int| 0 <= k < i ==> #[trigger] digest[k] == out[k],
    {
        digest[i] = out[i];
    }
    assert(digest@ =~= out@);
    digest
}

/// The lower-case hexadecimal digit of a value below 16.
pub open spec fn hex_digit(v: int) -> char {
    "0123456789abcdef"@[v]
}

/// Two hexadecimal digits per byte, the high one first.
pub open spec fn spec_hex(digest: Seq<u8>) -> Seq<char> {
    Seq::new(
        2 * digest.len(),
        |i: int|
            if i % 2 == 0 {
                hex_digit(digest[i / 2] as int / 16)
            } else {
                hex_digit(digest[i / 2] as int % 16)
            },
    )
}

/// A digest as 32 lower-case hexadecimal digits.
pub fn to_hex(digest: &[u8; 16]) -> (s: String)
    ensures
        s@ == spec_hex(digest@),
{
    let digits: &str = "0123456789abcdef";
    proof {
        reveal_strlit("0123456789abcdef");
    }
    let mut s: String = String::new();
    for i in 0..16usize
        invariant
            digits@ == "0123456789abcdef"@,
            digits@.len() == 16,
            digits.is_ascii(),
            s@ == spec_hex(digest@).subrange(0, 2 * i),
    {
        let hi: usize = (digest[i] / 16) as usize;
        let lo: usize = (digest[i] % 16) as usize;
        s.append(digits.substring_ascii(hi, hi + 1));
        s.append(digits.substring_ascii(lo, lo + 1));
        assert(s@ =~= spec_hex(digest@).subrange(0, 2 * (i + 1)));
    }
    assert(spec_hex(digest@).subrange(0, 32) =~= spec_hex(digest@));
    s
}

} // verus!
