//! Constants and helpers shared by otherwise unrelated modules.

use vstd::arithmetic::div_mod::{lemma_fundamental_div_mod, lemma_fundamental_div_mod_converse};
use vstd::arithmetic::power2::{
    lemma2_to64, lemma2_to64_rest, lemma_pow2_pos, lemma_pow2_strictly_increases, lemma_pow2_unfold,
    pow2,
};
use vstd::prelude::*;
use crate::prob_tables::{BLOCK_8X8, BLOCK_INVALID, MAX_TXSIZE_LOOKUP, SS_SIZE_LOOKUP, TX_4X4};

verus! {

/// The number of segment ids.
pub const MAX_SEGMENTS: usize = 8;

/// Reference frame type of intra blocks.
pub const INTRA_FRAME: u8 = 0;

/// `x` limited to `lo..=hi`.
pub open spec fn spec_clip3(lo: int, hi: int, x: int) -> int {
    if x < lo {
        lo
    } else if x > hi {
        hi
    } else {
        x
    }
}

/// `x` limited to `lo..=hi`.
pub fn clip3(lo: i32, hi: i32, x: i32) -> (r: i32)
    requires
        lo <= hi,
    ensures
        r == spec_clip3(lo as int, hi as int, x as int),
{
    if x < lo {
        lo
    } else if x > hi {
        hi
    } else {
        x
    }
}

/// `x / 2^n`, rounded to the nearest integer, halves up.
pub open spec fn spec_round2(x: int, n: nat) -> int {
    if n == 0 {
        x
    } else {
        (x + pow2((n - 1) as nat)) / (pow2(n) as int)
    }
}

/// The power `2^n`.
pub fn power_of_two(n: u32) -> (p: i64)
    requires
        n <= 62,
    ensures
        p == pow2(n as nat),
        1 <= p <= 0x4000_0000_0000_0000,
{
    let mut p: i64 = 1;
    proof {
        lemma2_to64();
        lemma2_to64_rest();
    }
    for i in 0..n
        invariant
            n <= 62,
            p == pow2(i as nat),
            pow2(62) == 0x4000_0000_0000_0000,
    {
        proof {
            lemma_pow2_unfold((i + 1) as nat);
            if i + 1 < 62 {
                lemma_pow2_strictly_increases((i + 1) as nat, 62);
            }
            lemma_pow2_pos(i as nat);
        }
        p = 2 * p;
    }
    proof {
        if n < 62 {
            lemma_pow2_strictly_increases(n as nat, 62);
        }
        lemma_pow2_pos(n as nat);
    }
    p
}

/// The quotient rounded down.
pub fn floor_div(x: i64, d: i64) -> (q: i64)
    requires
        0 < d,
    ensures
        q == x as int / d as int,
        x < 0 ==> x <= q < 0,
        x >= 0 ==> 0 <= q <= x,
{
    if x >= 0 {
        proof {
            assert(0 <= x as int / d as int <= x) by (nonlinear_arith)
                requires
                    0 <= x,
                    0 < d,
            ;
        }
        x / d
    } else {
        let m: i64 = -(x + 1);
        let q: i64 = m / d;
        proof {
            lemma_fundamental_div_mod(m as int, d as int);
            assert(0 <= m as int / d as int <= m) by (nonlinear_arith)
                requires
                    0 <= m,
                    0 < d,
            ;
            let r = m as int % d as int;
            assert(x == (-(q + 1)) * d + (d - 1 - r)) by (nonlinear_arith)
                requires
                    m == d * q + r,
                    m == -(x + 1),
            ;
            lemma_fundamental_div_mod_converse(x as int, d as int, -(q + 1), d - 1 - r);
        }
        -q - 1
    }
}

/// `x / 2^n`, rounded to the nearest integer, halves up.
pub fn round2_wide(x: i64, n: u32) -> (r: i64)
    requires
        n <= 62,
        x <= 0x2000_0000_0000_0000,
    ensures
        r == spec_round2(x as int, n as nat),
{
    if n == 0 {
        x
    } else {
        proof {
            lemma2_to64_rest();
            if n < 62 {
                lemma_pow2_strictly_increases((n - 1) as nat, 61);
            }
        }
        let half: i64 = power_of_two(n - 1);
        floor_div(x + half, power_of_two(n))
    }
}

/// `x / 2^n`, rounded to the nearest integer, halves up.
pub fn round2(x: i32, n: u32) -> (r: i32)
    requires
        n <= 31,
    ensures
        r == spec_round2(x as int, n as nat),
{
    let r: i64 = round2_wide(x as i64, n);
    proof {
        lemma_round2_between(x as int, n as nat);
    }
    r as i32
}

/// Rounding brings a value no further from 0 than it was, or one away from it.
pub proof fn lemma_round2_between(x: int, n: nat)
    ensures
        0 <= x ==> 0 <= spec_round2(x, n) <= x,
        x < 0 ==> x <= spec_round2(x, n) <= 0,
{
    if n > 0 {
        let h = pow2((n - 1) as nat) as int;
        lemma_pow2_unfold(n);
        lemma_pow2_pos((n - 1) as nat);
        let q = (x + h) / (2 * h);
        lemma_fundamental_div_mod(x + h, 2 * h);
        let r = (x + h) % (2 * h);
        assert(x + h == (2 * h) * q + r);
        if 0 <= x {
            assert(0 <= q <= x) by (nonlinear_arith)
                requires
                    0 <= x,
                    1 <= h,
                    x + h == (2 * h) * q + r,
                    0 <= r < 2 * h,
            ;
        } else {
            assert(x <= q <= 0) by (nonlinear_arith)
                requires
                    x < 0,
                    1 <= h,
                    x + h == (2 * h) * q + r,
                    0 <= r < 2 * h,
            ;
        }
    }
}

/// The value of bytes with the least significant one first.
pub open spec fn le_value(s: Seq<u8>) -> int
    decreases s.len(),
{
    if s.len() == 0 {
        0
    } else {
        s[0] as int + 256 * le_value(s.skip(1))
    }
}

/// The low `n` bytes of `v`, least significant first.
pub open spec fn le_bytes(v: int, n: nat) -> Seq<u8>
    decreases n,
{
    if n == 0 {
        Seq::empty()
    } else {
        seq![(v % 256) as u8] + le_bytes(v / 256, (n - 1) as nat)
    }
}

/// The value of `n` bytes lies in `0 .. 256^n`.
pub proof fn lemma_le_value_bound(s: Seq<u8>)
    ensures
        0 <= le_value(s) < vstd::arithmetic::power::pow(256, s.len()),
    decreases s.len(),
{
    vstd::arithmetic::power::lemma_pow0(256);
    if s.len() > 0 {
        lemma_le_value_bound(s.skip(1));
        assert(vstd::arithmetic::power::pow(256, s.len()) == 256 * vstd::arithmetic::power::pow(
            256,
            (s.len() - 1) as nat,
        )) by {
            reveal(vstd::arithmetic::power::pow);
        }
    }
}

/// The bytes of a value give it back, modulo the power that they can hold.
pub proof fn lemma_le_round_trip(v: int, n: nat)
    requires
        0 <= v < vstd::arithmetic::power::pow(256, n),
    ensures
        le_bytes(v, n).len() == n,
        le_value(le_bytes(v, n)) == v,
    decreases n,
{
    vstd::arithmetic::power::lemma_pow0(256);
    if n > 0 {
        assert(vstd::arithmetic::power::pow(256, n) == 256 * vstd::arithmetic::power::pow(
            256,
            (n - 1) as nat,
        )) by {
            reveal(vstd::arithmetic::power::pow);
        }
        lemma_le_round_trip(v / 256, (n - 1) as nat);
        assert(le_bytes(v, n).skip(1) =~= le_bytes(v / 256, (n - 1) as nat));
    }
}

/// The bytes of a value are as many as asked for.
pub proof fn lemma_le_bytes_len(v: int, n: nat)
    ensures
        le_bytes(v, n).len() == n,
    decreases n,
{
    if n > 0 {
        lemma_le_bytes_len(v / 256, (n - 1) as nat);
    }
}

/// Appends the low `n` bytes of `v`, least significant first.
pub fn push_le(out: &mut Vec<u8>, v: u128, n: usize)
    ensures
        final(out)@ == old(out)@ + le_bytes(v as int, n as nat),
{
    let mut rest: u128 = v;
    let mut i: usize = 0;
    let ghost before = out@;
    assert(before + le_bytes(v as int, n as nat) =~= out@ + le_bytes(rest as int, n as nat));
    while i < n
        invariant
            i <= n,
            before + le_bytes(v as int, n as nat) == out@ + le_bytes(rest as int, (n - i) as nat),
        decreases n - i,
    {
        let ghost prev = out@;
        out.push((rest % 256) as u8);
        proof {
            let tail = le_bytes((rest / 256) as int, (n - i - 1) as nat);
            assert(prev + (seq![(rest % 256) as u8] + tail) =~= out@ + tail);
        }
        rest = rest / 256;
        i += 1;
    }
    assert(out@ + Seq::<u8>::empty() =~= out@);
}

/// Appends all of `bytes`.
pub fn push_bytes(out: &mut Vec<u8>, bytes: &[u8])
    ensures
        final(out)@ == old(out)@ + bytes@,
{
    let ghost before = out@;
    for i in 0..bytes.len()
        invariant
            out@ == before + bytes@.subrange(0, i as int),
    {
        out.push(bytes[i]);
        assert(out@ =~= before + bytes@.subrange(0, i + 1));
    }
    assert(bytes@.subrange(0, bytes.len() as int) =~= bytes@);
}

/// The transform size of a chroma block: that of luma, limited by the size of
/// the subsampled block.
pub open spec fn spec_uv_tx_size(mi_size: u8, tx_size: u8, ssx: int, ssy: int) -> u8 {
    if mi_size < BLOCK_8X8 {
        TX_4X4
    } else {
        let limit = MAX_TXSIZE_LOOKUP[SS_SIZE_LOOKUP[mi_size as int][ssx][ssy] as int];
        if tx_size <= limit {
            tx_size
        } else {
            limit
        }
    }
}

/// Whether a block size has a subsampled counterpart.
pub open spec fn ss_size_defined(mi_size: u8, ssx: int, ssy: int) -> bool {
    mi_size < BLOCK_8X8 || (mi_size < 13 && 0 <= ssx <= 1 && 0 <= ssy <= 1
        && SS_SIZE_LOOKUP[mi_size as int][ssx][ssy] != BLOCK_INVALID)
}

/// The transform size of a chroma block.
pub fn get_uv_tx_size(mi_size: u8, tx_size: u8, subsampling_x: u32, subsampling_y: u32) -> (r: u8)
    requires
        ss_size_defined(mi_size, subsampling_x as int, subsampling_y as int),
    ensures
        r == spec_uv_tx_size(mi_size, tx_size, subsampling_x as int, subsampling_y as int),
{
    if mi_size < BLOCK_8X8 {
        return TX_4X4;
    }
    let plane_sz: u8 = SS_SIZE_LOOKUP[mi_size as usize][subsampling_x as usize][subsampling_y as usize];
    let limit: u8 = MAX_TXSIZE_LOOKUP[plane_sz as usize];
    if tx_size <= limit {
        tx_size
    } else {
        limit
    }
}

/// Bytes with the least significant one first: the first counts once, the second
/// 256 times, and so on.
pub proof fn lemma_le_digits(s: Seq<u8>)
    ensures
        s.len() == 1 ==> le_value(s) == s[0],
        s.len() == 2 ==> le_value(s) == s[0] + 0x100 * s[1],
        s.len() == 3 ==> le_value(s) == s[0] + 0x100 * s[1] + 0x1_0000 * s[2],
        s.len() == 4 ==> le_value(s) == s[0] + 0x100 * s[1] + 0x1_0000 * s[2] + 0x100_0000 * s[3],
{
    reveal_with_fuel(le_value, 6);
}

/// The transform of a chroma block is that of luma, or the largest that fits in the
/// subsampled block; that of a block below 8x8 is the smallest.
pub proof fn lemma_chroma_transform_fits(mi_size: u8, tx_size: u8, ssx: int, ssy: int)
    requires
        mi_size < 13,
        tx_size <= 3,
        0 <= ssx <= 1,
        0 <= ssy <= 1,
        ss_size_defined(mi_size, ssx, ssy),
    ensures
        ({
            let t = spec_uv_tx_size(mi_size, tx_size, ssx, ssy);
            let w = 8 * crate::prob_tables::NUM_8X8_BLOCKS_WIDE_LOOKUP[mi_size as int] / (1 + ssx);
            let h = 8 * crate::prob_tables::NUM_8X8_BLOCKS_HIGH_LOOKUP[mi_size as int] / (1 + ssy);
            &&& mi_size < 3 ==> t == 0
            &&& mi_size >= 3 ==> {
                &&& t <= tx_size
                &&& t >= 1 ==> w >= 8 && h >= 8
                &&& t >= 2 ==> w >= 16 && h >= 16
                &&& t == 3 ==> w >= 32 && h >= 32
                &&& t == 0 && tx_size > 0 ==> w < 8 || h < 8
                &&& t == 1 && tx_size > 1 ==> w < 16 || h < 16
                &&& t == 2 && tx_size > 2 ==> w < 32 || h < 32
            }
        }),
{
    assert(ssx == 0 || ssx == 1);
    assert(ssy == 0 || ssy == 1);
    assert(mi_size == 0 || mi_size == 1 || mi_size == 2 || mi_size == 3 || mi_size == 4 || mi_size
        == 5 || mi_size == 6 || mi_size == 7 || mi_size == 8 || mi_size == 9 || mi_size == 10
        || mi_size == 11 || mi_size == 12);
}

} // verus!
