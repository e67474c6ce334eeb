//! Inverse transforms and reconstruction.
//!
//! The inverse transforms are networks of rotations and sums on 32-bit values.
//! Every operation wraps modulo `2^32`, so the networks are defined on all
//! inputs. In the high bit depth networks the products of a rotation are
//! rounded before they wrap, in the others after.

use vstd::arithmetic::power2::{lemma2_to64, lemma_pow2_unfold, pow2};
use vstd::prelude::*;
use crate::common::{floor_div, power_of_two, spec_clip3};
use crate::framebuffer::{lemma_row_major, lemma_row_major_inverse, row_major};

pub mod laws;
pub mod zero;

verus! {

/// The pair of one-dimensional transforms of a block: columns, then rows.
#[derive(Debug, Clone, Copy, PartialEq, Eq, Structural)]
pub enum TxType {
    DctDct,
    AdstDct,
    DctAdst,
    AdstAdst,
}

// ---------------------------------------------------------------------------
// Arithmetic.
// ---------------------------------------------------------------------------

/// `x` modulo `2^32`, as a signed 32-bit value.
pub open spec fn wrap32(x: int) -> int {
    let m = x % 0x1_0000_0000;
    if m >= 0x8000_0000 {
        m - 0x1_0000_0000
    } else {
        m
    }
}

/// `2^14 cos(k pi / 64)` for the first quarter turn, rounded.
pub const COS64_TABLE: [i32; 33] = [
    16384, 16364, 16305, 16207, 16069, 15893, 15679, 15426, 15137, 14811, 14449, 14053, 13623,
    13160, 12665, 12140, 11585, 11003, 10394, 9760, 9102, 8423, 7723, 7005, 6270, 5520, 4756,
    3981, 3196, 2404, 1606, 804, 0,
];

/// `2^14 sin(k pi / 9) * 2 sqrt(2) / 3` for `k` from 1 to 4, rounded.
pub const SINPI_1_9: i64 = 5283;
pub const SINPI_2_9: i64 = 9929;
pub const SINPI_3_9: i64 = 13377;
pub const SINPI_4_9: i64 = 15212;

/// `2^14 cos(angle pi / 64)`, rounded.
pub open spec fn cos64(angle: int) -> int {
    let a = angle % 128;
    if a <= 32 {
        COS64_TABLE[a] as int
    } else if a <= 64 {
        -(COS64_TABLE[64 - a] as int)
    } else if a <= 96 {
        -(COS64_TABLE[a - 64] as int)
    } else {
        COS64_TABLE[128 - a] as int
    }
}

/// `2^14 sin(angle pi / 64)`, rounded.
pub open spec fn sin64(angle: int) -> int {
    cos64(angle - 32)
}

/// The low `n` bits of `x` in reverse order.
pub open spec fn brev(n: nat, x: int) -> int
    decreases n,
{
    if n == 0 {
        0
    } else {
        (x % 2) * pow2((n - 1) as nat) + brev((n - 1) as nat, x / 2)
    }
}

/// A product sum in units of `2^-14`, rounded to a whole number.
pub open spec fn rounded14(v: int, hbd: bool) -> int {
    if hbd {
        wrap32((v + 8192) / 16384)
    } else {
        wrap32(v + 8192) / 16384
    }
}

fn wrap(x: i64) -> (r: i32)
    ensures
        r == wrap32(x as int),
{
    let q: i64 = floor_div(x, 0x1_0000_0000);
    proof {
        vstd::arithmetic::div_mod::lemma_fundamental_div_mod(x as int, 0x1_0000_0000);
    }
    let m: i64 = x - q * 0x1_0000_0000;
    if m >= 0x8000_0000 {
        (m - 0x1_0000_0000) as i32
    } else {
        m as i32
    }
}

fn cosine(angle: i32) -> (c: i64)
    requires
        0 <= angle < 128,
    ensures
        c == cos64(angle as int),
        -16384 <= c <= 16384,
{
    proof {
        let table = COS64_TABLE@;
        assert(forall|k: int| 0 <= k < 33 ==> 0 <= #[trigger] table[k] <= 16384);
    }
    if angle <= 32 {
        COS64_TABLE[angle as usize] as i64
    } else if angle <= 64 {
        -(COS64_TABLE[(64 - angle) as usize] as i64)
    } else if angle <= 96 {
        -(COS64_TABLE[(angle - 64) as usize] as i64)
    } else {
        COS64_TABLE[(128 - angle) as usize] as i64
    }
}

fn sine(angle: i32) -> (s: i64)
    requires
        0 <= angle < 128,
    ensures
        s == sin64(angle as int),
        -16384 <= s <= 16384,
{
    if angle >= 32 {
        cosine(angle - 32)
    } else {
        assert((angle - 32) % 128 == angle + 96);
        cosine(angle + 96)
    }
}

fn reverse_bits(n: u32, x: usize) -> (r: usize)
    requires
        n <= 5,
    ensures
        r == brev(n as nat, x as int),
        r < pow2(n as nat),
    decreases n,
{
    proof {
        lemma2_to64();
    }
    if n == 0 {
        0
    } else {
        let rest: usize = reverse_bits(n - 1, x / 2);
        let half: usize = power_of_two(n - 1) as usize;
        proof {
            lemma_pow2_unfold(n as nat);
            assert((x % 2) * half <= half) by (nonlinear_arith)
                requires
                    0 <= x % 2 <= 1,
                    0 <= half,
            ;
        }
        (x % 2) * half + rest
    }
}

fn round14(v: i64, hbd: bool) -> (r: i32)
    requires
        -0x1_0000_0000_0000 <= v <= 0x1_0000_0000_0000,
    ensures
        r == rounded14(v as int, hbd),
{
    if hbd {
        wrap(floor_div(v + 8192, 16384))
    } else {
        floor_div(wrap(v + 8192) as i64, 16384) as i32
    }
}

// ---------------------------------------------------------------------------
// Networks.
// ---------------------------------------------------------------------------

/// One operation of a network on two values.
pub enum Op {
    /// Rotates the pair by an angle; swaps the results where `flip` is set.
    Rotate { a: int, b: int, angle: int, flip: bool },
    /// Replaces the pair by its sum and difference; `flip` swaps the two.
    Sum { a: int, b: int, flip: bool },
}

/// What an operation makes of the values.
pub open spec fn step(t: Seq<i32>, op: Op, hbd: bool) -> Seq<i32> {
    match op {
        Op::Rotate { a, b, angle, flip } => {
            let x = rounded14(t[a] * cos64(angle) - t[b] * sin64(angle), hbd) as i32;
            let y = rounded14(t[a] * sin64(angle) + t[b] * cos64(angle), hbd) as i32;
            if flip {
                t.update(a, y).update(b, x)
            } else {
                t.update(a, x).update(b, y)
            }
        },
        Op::Sum { a, b, flip } => {
            let p = if flip {
                b
            } else {
                a
            };
            let q = if flip {
                a
            } else {
                b
            };
            t.update(p, wrap32(t[p] + t[q]) as i32).update(q, wrap32(t[p] - t[q]) as i32)
        },
    }
}

/// What the first `k` operations make of the values.
pub open spec fn run(t: Seq<i32>, ops: Seq<Op>, k: nat, hbd: bool) -> Seq<i32>
    decreases k,
{
    if k == 0 {
        t
    } else {
        step(run(t, ops, (k - 1) as nat, hbd), ops[k - 1], hbd)
    }
}

/// What all operations make of the values.
pub open spec fn run_all(t: Seq<i32>, ops: Seq<Op>, hbd: bool) -> Seq<i32> {
    run(t, ops, ops.len(), hbd)
}

fn rotate(t: &mut [i32; 32], a: usize, b: usize, angle: i32, flip: bool, hbd: bool)
    requires
        a < 32,
        b < 32,
        0 <= angle < 128,
    ensures
        final(t)@ == step(
            old(t)@,
            (Op::Rotate { a: a as int, b: b as int, angle: angle as int, flip }),
            hbd,
        ),
{
    let cos: i64 = cosine(angle);
    let sin: i64 = sine(angle);
    let ta: i64 = t[a] as i64;
    let tb: i64 = t[b] as i64;
    proof {
        lemma_product_range(ta as int, cos as int);
        lemma_product_range(ta as int, sin as int);
        lemma_product_range(tb as int, cos as int);
        lemma_product_range(tb as int, sin as int);
    }
    let x: i32 = round14(ta * cos - tb * sin, hbd);
    let y: i32 = round14(ta * sin + tb * cos, hbd);
    if flip {
        t[a] = y;
        t[b] = x;
    } else {
        t[a] = x;
        t[b] = y;
    }
}

proof fn lemma_product_range(v: int, c: int)
    requires
        -0x8000_0000 <= v <= 0x7fff_ffff,
        -16384 <= c <= 16384,
    ensures
        -0x2000_0000_0000 <= v * c <= 0x2000_0000_0000,
{
    assert(-0x2000_0000_0000 <= v * c <= 0x2000_0000_0000) by (nonlinear_arith)
        requires
            -0x8000_0000 <= v <= 0x7fff_ffff,
            -16384 <= c <= 16384,
    ;
}

fn sum(t: &mut [i32; 32], a: usize, b: usize, flip: bool, Ghost(hbd): Ghost<bool>)
    requires
        a < 32,
        b < 32,
    ensures
        final(t)@ == step(old(t)@, (Op::Sum { a: a as int, b: b as int, flip }), hbd),
{
    let p: usize = if flip { b } else { a };
    let q: usize = if flip { a } else { b };
    let x: i64 = t[p] as i64;
    let y: i64 = t[q] as i64;
    t[p] = wrap(x + y);
    t[q] = wrap(x - y);
}

/// The reordering before an inverse DCT of `2^n` values: by reversed index.
pub open spec fn dct_permuted(t: Seq<i32>, n: nat) -> Seq<i32> {
    Seq::new(
        t.len(),
        |i: int|
            if i < pow2(n) {
                t[brev(n, i)]
            } else {
                t[i]
            },
    )
}

/// First rotations of the odd half.
pub open spec fn odd_rotations(n: nat) -> Seq<Op> {
    let n0 = pow2(n) as int;
    let n1 = n0 / 2;
    Seq::new(
        (n0 / 4) as nat,
        |i: int|
            Op::Rotate {
                a: n1 + i,
                b: n0 - 1 - i,
                angle: 32 - brev(5, n1 + i),
                flip: false,
            },
    )
}

/// Sums of neighbours of the odd half.
pub open spec fn neighbour_sums(n: nat) -> Seq<Op> {
    let n1 = pow2(n) as int / 2;
    Seq::new(
        (n1 / 2) as nat,
        |k: int| Op::Sum { a: n1 + 2 * k, b: n1 + 1 + 2 * k, flip: k % 2 == 1 },
    )
}

/// Rotations of the odd half that only the largest transform has.
pub open spec fn quarter_rotations() -> Seq<Op> {
    Seq::new(
        4,
        |k: int|
            Op::Rotate {
                a: 30 - 8 * (k % 2) - 4 * (k / 2),
                b: 17 + 8 * (k % 2) + 4 * (k / 2),
                angle: 28 - 16 * (k / 2) + 56 * (k % 2),
                flip: true,
            },
    )
}

/// Sums of the odd half that only the largest transform has.
pub open spec fn quarter_sums() -> Seq<Op> {
    Seq::new(
        8,
        |k: int|
            Op::Sum {
                a: 16 + 4 * (k % 4) + k / 4,
                b: 19 + 4 * (k % 4) - k / 4,
                flip: k % 2 == 1,
            },
    )
}

/// Rotations of the odd half that the two largest transforms have.
pub open spec fn half_rotations(n: nat) -> Seq<Op> {
    let n0 = pow2(n) as int;
    let n1 = n0 / 2;
    let n2 = n0 / 4;
    Seq::new(
        if n == 5 {
            4
        } else {
            2
        },
        |k: int|
            Op::Rotate {
                a: n0 - n + 2 - k / 2 - n2 * (k % 2),
                b: n1 + n - 3 + k / 2 + n2 * (k % 2),
                angle: 24 + 48 * (k % 2),
                flip: true,
            },
    )
}

/// Sums of the odd half that the two largest transforms have.
pub open spec fn half_sums(n: nat) -> Seq<Op> {
    let n1 = pow2(n) as int / 2;
    let n2 = n1 / 2;
    let m = 2 * n - 6;
    Seq::new(
        (2 * m) as nat,
        |k: int|
            Op::Sum {
                a: n1 + n2 * (k / m) + k % m,
                b: n1 + n2 - 1 + n2 * (k / m) - k % m,
                flip: k / m == 1,
            },
    )
}

/// Last rotations of the odd half.
pub open spec fn middle_rotations(n: nat) -> Seq<Op> {
    let n0 = pow2(n) as int;
    let n1 = n0 / 2;
    let n3 = n0 / 8;
    Seq::new(
        n3 as nat,
        |i: int| Op::Rotate { a: n0 - n3 - 1 - i, b: n1 + n3 + i, angle: 16, flip: true },
    )
}

/// Sums that join the two halves.
pub open spec fn final_sums(n: nat) -> Seq<Op> {
    let n0 = pow2(n) as int;
    Seq::new((n0 / 2) as nat, |i: int| Op::Sum { a: i, b: n0 - 1 - i, flip: false })
}

/// The network of the inverse DCT of `2^n` values, after the reordering.
pub open spec fn dct_network(t: Seq<i32>, n: nat, hbd: bool) -> Seq<i32>
    decreases n,
{
    let s0 = if n <= 2 {
        step(t, (Op::Rotate { a: 0, b: 1, angle: 16, flip: true }), hbd)
    } else {
        dct_network(t, (n - 1) as nat, hbd)
    };
    let s1 = run_all(s0, odd_rotations(n), hbd);
    let s2 = if n >= 3 {
        run_all(s1, neighbour_sums(n), hbd)
    } else {
        s1
    };
    let s3 = if n == 5 {
        run_all(run_all(s2, quarter_rotations(), hbd), quarter_sums(), hbd)
    } else {
        s2
    };
    let s4 = if n >= 4 {
        run_all(run_all(s3, half_rotations(n), hbd), half_sums(n), hbd)
    } else {
        s3
    };
    let s5 = if n >= 3 {
        run_all(s4, middle_rotations(n), hbd)
    } else {
        s4
    };
    run_all(s5, final_sums(n), hbd)
}

/// The inverse DCT of the first `2^n` values.
pub open spec fn inverse_dct(t: Seq<i32>, n: nat, hbd: bool) -> Seq<i32> {
    dct_network(dct_permuted(t, n), n, hbd)
}

fn idct_permute(t: &mut [i32; 32], n: u32)
    requires
        2 <= n <= 5,
    ensures
        final(t)@ == dct_permuted(old(t)@, n as nat),
{
    let before: [i32; 32] = *t;
    let n0: usize = power_of_two(n) as usize;
    proof {
        lemma2_to64();
    }
    for i in 0..n0
        invariant
            2 <= n <= 5,
            n0 == pow2(n as nat),
            n0 <= 32,
            forall|k: int|
                0 <= k < 32 ==> #[trigger] t[k] == if k < i {
                    before[brev(n as nat, k)]
                } else {
                    before[k]
                },
    {
        let from: usize = reverse_bits(n, i);
        t[i] = before[from];
    }
    assert(t@ =~= dct_permuted(before@, n as nat));
}

fn idct(t: &mut [i32; 32], n: u32, hbd: bool)
    requires
        2 <= n <= 5,
    ensures
        final(t)@ == dct_network(old(t)@, n as nat, hbd),
    decreases n,
{
    proof {
        lemma2_to64();
    }
    let n0: usize = power_of_two(n) as usize;
    let n1: usize = n0 / 2;
    let n2: usize = n0 / 4;
    if n == 2 {
        rotate(t, 0, 1, 16, true, hbd);
    } else {
        idct(t, n - 1, hbd);
    }
    rotate_odd(t, n, n0, hbd);
    if n >= 3 {
        let ghost start = t@;
        for k in 0..n2
            invariant
                n0 == pow2(n as nat),
                n1 == n0 / 2,
                n2 == n0 / 4,
                n0 <= 32,
                n0 % 8 == 0,
                t@ == run(start, neighbour_sums(n as nat), k as nat, hbd),
        {
            sum(t, n1 + 2 * k, n1 + 1 + 2 * k, k % 2 == 1, Ghost(hbd));
        }
    }
    if n == 5 {
        idct_quarter(t, hbd);
    }
    if n >= 4 {
        idct_half(t, n, n0, hbd);
    }
    if n >= 3 {
        let ghost start = t@;
        let n3: usize = n0 / 8;
        for i in 0..n3
            invariant
                n0 == pow2(n as nat),
                n1 == n0 / 2,
                n3 == n0 / 8,
                8 <= n0 <= 32,
                n0 % 8 == 0,
                t@ == run(start, middle_rotations(n as nat), i as nat, hbd),
        {
            rotate(t, n0 - n3 - 1 - i, n1 + n3 + i, 16, true, hbd);
        }
    }
    let ghost start = t@;
    for i in 0..n1
        invariant
            n0 == pow2(n as nat),
            n1 == n0 / 2,
            4 <= n0 <= 32,
            t@ == run(start, final_sums(n as nat), i as nat, hbd),
    {
        sum(t, i, n0 - 1 - i, false, Ghost(hbd));
    }
}

fn rotate_odd(t: &mut [i32; 32], n: u32, n0: usize, hbd: bool)
    requires
        2 <= n <= 5,
        n0 == pow2(n as nat),
    ensures
        final(t)@ == run_all(old(t)@, odd_rotations(n as nat), hbd),
{
    proof {
        lemma2_to64();
    }
    let ghost start = t@;
    for i in 0..n0 / 4
        invariant
            n0 == pow2(n as nat),
            4 <= n0 <= 32,
            pow2(5) == 32,
            t@ == run(start, odd_rotations(n as nat), i as nat, hbd),
    {
        let a: usize = n0 / 2 + i;
        let angle: i32 = 32 - reverse_bits(5, a) as i32;
        rotate(t, a, n0 - 1 - i, angle, false, hbd);
    }
}

fn idct_quarter(t: &mut [i32; 32], hbd: bool)
    ensures
        final(t)@ == run_all(run_all(old(t)@, quarter_rotations(), hbd), quarter_sums(), hbd),
{
    let ghost start = t@;
    for k in 0..4usize
        invariant
            t@ == run(start, quarter_rotations(), k as nat, hbd),
    {
        rotate(
            t,
            30 - 8 * (k % 2) - 4 * (k / 2),
            17 + 8 * (k % 2) + 4 * (k / 2),
            28 - 16 * (k / 2) as i32 + 56 * (k % 2) as i32,
            true,
            hbd,
        );
    }
    let ghost middle = t@;
    for k in 0..8usize
        invariant
            t@ == run(middle, quarter_sums(), k as nat, hbd),
    {
        sum(t, 16 + 4 * (k % 4) + k / 4, 19 + 4 * (k % 4) - k / 4, k % 2 == 1, Ghost(hbd));
    }
}

fn idct_half(t: &mut [i32; 32], n: u32, n0: usize, hbd: bool)
    requires
        4 <= n <= 5,
        n0 == pow2(n as nat),
    ensures
        final(t)@ == run_all(run_all(old(t)@, half_rotations(n as nat), hbd), half_sums(n as nat), hbd),
{
    proof {
        lemma2_to64();
    }
    let ghost start = t@;
    let m: usize = n as usize;
    let n1: usize = n0 / 2;
    let n2: usize = n0 / 4;
    let rotations: usize = if n == 5 { 4 } else { 2 };
    for k in 0..rotations
        invariant
            4 <= n <= 5,
            m == n,
            n0 == pow2(n as nat),
            n == 4 ==> n0 == 16,
            n == 5 ==> n0 == 32,
            n1 == n0 / 2,
            n2 == n0 / 4,
            rotations == if n == 5 { 4usize } else { 2usize },
            t@ == run(start, half_rotations(n as nat), k as nat, hbd),
    {
        let j: usize = k % 2;
        let off: usize = if j == 1 { n2 } else { 0 };
        assert(off == n2 * (k as int % 2)) by (nonlinear_arith)
            requires
                off == if k as int % 2 == 1 { n2 as int } else { 0 },
                0 <= k as int % 2 <= 1,
        ;
        rotate(
            t,
            n0 - m + 2 - k / 2 - off,
            n1 + m - 3 + k / 2 + off,
            24 + 48 * j as i32,
            true,
            hbd,
        );
    }
    let ghost middle = t@;
    let len: usize = 2 * m - 6;
    for k in 0..2 * len
        invariant
            4 <= n <= 5,
            m == n,
            len == 2 * m - 6,
            n0 == pow2(n as nat),
            n == 4 ==> n0 == 16,
            n == 5 ==> n0 == 32,
            n1 == n0 / 2,
            n2 == n1 / 2,
            t@ == run(middle, half_sums(n as nat), k as nat, hbd),
    {
        let second: bool = k >= len;
        let off: usize = if second { n2 } else { 0 };
        let i: usize = if second { k - len } else { k };
        proof {
            if second {
                vstd::arithmetic::div_mod::lemma_fundamental_div_mod_converse(
                    k as int,
                    len as int,
                    1,
                    i as int,
                );
            } else {
                vstd::arithmetic::div_mod::lemma_fundamental_div_mod_converse(
                    k as int,
                    len as int,
                    0,
                    i as int,
                );
            }
            assert(off == n2 * (k as int / len as int)) by (nonlinear_arith)
                requires
                    second ==> k as int / len as int == 1,
                    !second ==> k as int / len as int == 0,
                    off == if second { n2 as int } else { 0 },
            ;
        }
        sum(t, n1 + off + i, n1 + n2 - 1 + off - i, second, Ghost(hbd));
    }
}

// ---------------------------------------------------------------------------
// The asymmetric sine transform.
// ---------------------------------------------------------------------------

/// The values of an ADST network: the values proper, and unrounded rotations of
/// them.
pub struct AdstValues {
    pub t: Seq<i32>,
    pub s: Seq<i32>,
}

/// One operation of an ADST network.
pub enum AdstOp {
    /// Rotates a pair of values into the unrounded ones; swaps the results
    /// where `flip` is set.
    Wide { a: int, b: int, angle: int, flip: bool },
    /// Replaces a pair of values by the rounded sum and difference of the
    /// unrounded ones.
    Narrow { a: int, b: int },
    /// An operation on the values alone.
    Plain(Op),
}

/// What an operation makes of the values.
pub open spec fn adst_step(v: AdstValues, op: AdstOp) -> AdstValues {
    match op {
        AdstOp::Wide { a, b, angle, flip } => {
            let x = wrap32(v.t[a] * cos64(angle) - v.t[b] * sin64(angle)) as i32;
            let y = wrap32(v.t[a] * sin64(angle) + v.t[b] * cos64(angle)) as i32;
            AdstValues {
                s: if flip {
                    v.s.update(a, y).update(b, x)
                } else {
                    v.s.update(a, x).update(b, y)
                },
                ..v
            }
        },
        AdstOp::Narrow { a, b } => AdstValues {
            t: v.t.update(a, rounded14(v.s[a] + v.s[b], false) as i32).update(
                b,
                rounded14(v.s[a] - v.s[b], false) as i32,
            ),
            ..v
        },
        AdstOp::Plain(op) => AdstValues { t: step(v.t, op, false), ..v },
    }
}

/// What the first `k` operations make of the values.
pub open spec fn adst_run(v: AdstValues, ops: Seq<AdstOp>, k: nat) -> AdstValues
    decreases k,
{
    if k == 0 {
        v
    } else {
        adst_step(adst_run(v, ops, (k - 1) as nat), ops[k - 1])
    }
}

/// The operations of the 8-point network.
pub open spec fn adst8_ops() -> Seq<AdstOp> {
    Seq::new(
        16,
        |k: int|
            if k < 4 {
                AdstOp::Wide { a: 2 * k, b: 1 + 2 * k, angle: 30 - 8 * k, flip: true }
            } else if k < 8 {
                AdstOp::Narrow { a: k - 4, b: k }
            } else if k < 10 {
                AdstOp::Wide {
                    a: 4 + 3 * (k - 8),
                    b: 5 + (k - 8),
                    angle: 24 - 16 * (k - 8),
                    flip: true,
                }
            } else if k < 12 {
                AdstOp::Narrow { a: 4 + (k - 10), b: 6 + (k - 10) }
            } else if k < 14 {
                AdstOp::Plain(Op::Sum { a: k - 12, b: 2 + (k - 12), flip: false })
            } else {
                AdstOp::Plain(
                    Op::Rotate { a: 2 + 4 * (k - 14), b: 3 + 4 * (k - 14), angle: 16, flip: true },
                )
            },
    )
}

/// The operations of the 16-point network.
pub open spec fn adst16_ops() -> Seq<AdstOp> {
    Seq::new(
        44,
        |k: int|
            if k < 8 {
                AdstOp::Wide { a: 2 * k, b: 1 + 2 * k, angle: 31 - 4 * k, flip: true }
            } else if k < 16 {
                AdstOp::Narrow { a: k - 8, b: k }
            } else if k < 20 {
                AdstOp::Wide {
                    a: 8 + 2 * (k - 16),
                    b: 9 + 2 * (k - 16),
                    angle: 28 - 16 * (k - 16),
                    flip: true,
                }
            } else if k < 24 {
                AdstOp::Narrow { a: 8 + (k - 20), b: 12 + (k - 20) }
            } else if k < 28 {
                AdstOp::Plain(Op::Sum { a: k - 24, b: 4 + (k - 24), flip: false })
            } else if k < 32 {
                let i = (k - 28) / 2;
                let j = (k - 28) % 2;
                AdstOp::Wide {
                    a: 4 + 8 * i + 3 * j,
                    b: 5 + 8 * i + j,
                    angle: 24 - 16 * j,
                    flip: true,
                }
            } else if k < 36 {
                let i = (k - 32) / 2;
                let j = (k - 32) % 2;
                AdstOp::Narrow { a: 4 + 8 * j + i, b: 6 + 8 * j + i }
            } else if k < 40 {
                let i = (k - 36) / 2;
                let j = (k - 36) % 2;
                AdstOp::Plain(Op::Sum { a: 8 * j + i, b: 2 + 8 * j + i, flip: false })
            } else {
                let i = (k - 40) / 2;
                let j = (k - 40) % 2;
                AdstOp::Plain(
                    Op::Rotate {
                        a: 2 + 4 * j + 8 * i,
                        b: 3 + 4 * j + 8 * i,
                        angle: if i == j {
                            48
                        } else {
                            112
                        },
                        flip: false,
                    },
                )
            },
    )
}

/// The reordering before an ADST of `n0` values: from both ends inwards.
pub open spec fn adst_input(t: Seq<i32>, n0: int) -> Seq<i32> {
    Seq::new(
        t.len(),
        |i: int|
            if i >= n0 {
                t[i]
            } else if i % 2 == 0 {
                t[n0 - 1 - i]
            } else {
                t[i - 1]
            },
    )
}

/// Where the value at `i` after the 8-point network comes from.
pub open spec fn adst8_source(i: int) -> int {
    let a = i / 4;
    let b = i / 2 % 2;
    let c = i % 2;
    4 * ((c + b) % 2) + 2 * ((b + a) % 2) + a
}

/// Where the value at `i` after the 16-point network comes from.
pub open spec fn adst16_source(i: int) -> int {
    let a = i / 8;
    let b = i / 4 % 2;
    let c = i / 2 % 2;
    let d = i % 2;
    8 * ((d + c) % 2) + 4 * ((c + b) % 2) + 2 * ((b + a) % 2) + a
}

/// The values whose sign changes after the 16-point network.
pub open spec fn adst16_negated(i: int) -> bool {
    i == 1 || i == 3 || i == 13 || i == 15
}

/// The inverse ADST of 4 values.
pub open spec fn inverse_adst4(t: Seq<i32>) -> Seq<i32> {
    let s1 = SINPI_1_9 as int;
    let s2 = SINPI_2_9 as int;
    let s3 = SINPI_3_9 as int;
    let s4 = SINPI_4_9 as int;
    let o0 = s1 * t[0] + s4 * t[2] + s2 * t[3] + s3 * t[1];
    let o1 = s2 * t[0] - s1 * t[2] - s4 * t[3] + s3 * t[1];
    let o2 = s3 * (t[0] - t[2] + t[3]);
    let o3 = (s1 * t[0] + s4 * t[2] + s2 * t[3]) + (s2 * t[0] - s1 * t[2] - s4 * t[3]) - s3 * t[1];
    t.update(0, rounded14(o0, false) as i32).update(1, rounded14(o1, false) as i32).update(
        2,
        rounded14(o2, false) as i32,
    ).update(3, rounded14(o3, false) as i32)
}

/// The inverse ADST of 8 values.
pub open spec fn inverse_adst8(t: Seq<i32>) -> Seq<i32> {
    let v = AdstValues { t: adst_input(t, 8), s: Seq::new(16, |i: int| 0i32) };
    let r = adst_run(v, adst8_ops(), 16).t;
    Seq::new(
        t.len(),
        |i: int|
            if i >= 8 {
                r[i]
            } else if i % 2 == 1 {
                wrap32(-(r[adst8_source(i)] as int)) as i32
            } else {
                r[adst8_source(i)]
            },
    )
}

/// The inverse ADST of 16 values.
pub open spec fn inverse_adst16(t: Seq<i32>) -> Seq<i32> {
    let v = AdstValues { t: adst_input(t, 16), s: Seq::new(16, |i: int| 0i32) };
    let r = adst_run(v, adst16_ops(), 44).t;
    Seq::new(
        t.len(),
        |i: int|
            if i >= 16 {
                r[i]
            } else if adst16_negated(i) {
                wrap32(-(r[adst16_source(i)] as int)) as i32
            } else {
                r[adst16_source(i)]
            },
    )
}

/// The inverse ADST of the first `2^n` values.
pub open spec fn inverse_adst(t: Seq<i32>, n: nat) -> Seq<i32> {
    if n == 2 {
        inverse_adst4(t)
    } else if n == 3 {
        inverse_adst8(t)
    } else {
        inverse_adst16(t)
    }
}

fn adst_wide(t: &[i32; 32], s: &mut [i32; 16], a: usize, b: usize, angle: i32, flip: bool)
    requires
        a < 16,
        b < 16,
        -128 <= angle < 128,
    ensures
        (AdstValues { t: t@, s: final(s)@ }) == adst_step(
            (AdstValues { t: t@, s: old(s)@ }),
            (AdstOp::Wide { a: a as int, b: b as int, angle: angle as int, flip }),
        ),
{
    let turn: i32 = if angle < 0 { angle + 128 } else { angle };
    proof {
        assert(turn as int % 128 == angle as int % 128);
        assert((turn - 32) % 128 == (angle - 32) % 128);
    }
    let cos: i64 = cosine(turn);
    let sin: i64 = sine(turn);
    let ta: i64 = t[a] as i64;
    let tb: i64 = t[b] as i64;
    proof {
        lemma_product_range(ta as int, cos as int);
        lemma_product_range(ta as int, sin as int);
        lemma_product_range(tb as int, cos as int);
        lemma_product_range(tb as int, sin as int);
    }
    let x: i32 = wrap(ta * cos - tb * sin);
    let y: i32 = wrap(ta * sin + tb * cos);
    if flip {
        s[a] = y;
        s[b] = x;
    } else {
        s[a] = x;
        s[b] = y;
    }
}

fn adst_narrow(t: &mut [i32; 32], s: &[i32; 16], a: usize, b: usize)
    requires
        a < 16,
        b < 16,
    ensures
        (AdstValues { t: final(t)@, s: s@ }) == adst_step(
            (AdstValues { t: old(t)@, s: s@ }),
            (AdstOp::Narrow { a: a as int, b: b as int }),
        ),
{
    let x: i64 = s[a] as i64;
    let y: i64 = s[b] as i64;
    t[a] = round14(x + y, false);
    t[b] = round14(x - y, false);
}

fn iadst4(t: &mut [i32; 32])
    ensures
        final(t)@ == inverse_adst4(old(t)@),
{
    let t0: i64 = t[0] as i64;
    let t1: i64 = t[1] as i64;
    let t2: i64 = t[2] as i64;
    let t3: i64 = t[3] as i64;
    let x0: i64 = SINPI_1_9 * t0 + SINPI_4_9 * t2 + SINPI_2_9 * t3;
    let x1: i64 = SINPI_2_9 * t0 - SINPI_1_9 * t2 - SINPI_4_9 * t3;
    let x2: i64 = SINPI_3_9 * (t0 - t2 + t3);
    let x3: i64 = SINPI_3_9 * t1;
    t[0] = round14(x0 + x3, false);
    t[1] = round14(x1 + x3, false);
    t[2] = round14(x2, false);
    t[3] = round14(x0 + x1 - x3, false);
}

fn adst_input_permute(t: &mut [i32; 32], n0: usize)
    requires
        n0 == 8 || n0 == 16,
    ensures
        final(t)@ == adst_input(old(t)@, n0 as int),
{
    let before: [i32; 32] = *t;
    for i in 0..n0
        invariant
            n0 == 8 || n0 == 16,
            forall|k: int|
                0 <= k < 32 ==> #[trigger] t[k] == if k >= i {
                    before[k]
                } else if k % 2 == 0 {
                    before[n0 - 1 - k]
                } else {
                    before[k - 1]
                },
    {
        let v: i32 = if i % 2 == 0 { before[n0 - 1 - i] } else { before[i - 1] };
        t[i] = v;
    }
    assert(t@ =~= adst_input(before@, n0 as int));
}

fn negated(v: i32) -> (r: i32)
    ensures
        r == wrap32(-(v as int)),
{
    wrap(-(v as i64))
}

/// Reorders the values after the 8-point network, and changes the sign of every
/// second one.
fn adst8_output(t: &mut [i32; 32])
    ensures
        forall|i: int|
            0 <= i < 32 ==> #[trigger] final(t)[i] == if i >= 8 {
                old(t)[i]
            } else if i % 2 == 1 {
                wrap32(-(old(t)[adst8_source(i)] as int)) as i32
            } else {
                old(t)[adst8_source(i)]
            },
{
    let before: [i32; 32] = *t;
    for i in 0..8usize
        invariant
            forall|k: int|
                0 <= k < 32 ==> #[trigger] t[k] == if k >= i {
                    before[k]
                } else if k % 2 == 1 {
                    wrap32(-(before[adst8_source(k)] as int)) as i32
                } else {
                    before[adst8_source(k)]
                },
    {
        let a: usize = i / 4;
        let b: usize = i / 2 % 2;
        let c: usize = i % 2;
        let from: usize = 4 * ((c + b) % 2) + 2 * ((b + a) % 2) + a;
        let v: i32 = if i % 2 == 1 { negated(before[from]) } else { before[from] };
        t[i] = v;
    }
}

/// Reorders the values after the 16-point network, and changes the sign of four
/// of them.
fn adst16_output(t: &mut [i32; 32])
    ensures
        forall|i: int|
            0 <= i < 32 ==> #[trigger] final(t)[i] == if i >= 16 {
                old(t)[i]
            } else if adst16_negated(i) {
                wrap32(-(old(t)[adst16_source(i)] as int)) as i32
            } else {
                old(t)[adst16_source(i)]
            },
{
    let before: [i32; 32] = *t;
    for i in 0..16usize
        invariant
            forall|k: int|
                0 <= k < 32 ==> #[trigger] t[k] == if k >= i {
                    before[k]
                } else if adst16_negated(k) {
                    wrap32(-(before[adst16_source(k)] as int)) as i32
                } else {
                    before[adst16_source(k)]
                },
    {
        let a: usize = i / 8;
        let b: usize = i / 4 % 2;
        let c: usize = i / 2 % 2;
        let d: usize = i % 2;
        let from: usize = 8 * ((d + c) % 2) + 4 * ((c + b) % 2) + 2 * ((b + a) % 2) + a;
        let v: i32 = if i == 1 || i == 3 || i == 13 || i == 15 {
            negated(before[from])
        } else {
            before[from]
        };
        t[i] = v;
    }
}

fn iadst8(t: &mut [i32; 32])
    ensures
        final(t)@ == inverse_adst8(old(t)@),
{
    let ghost before = t@;
    adst_input_permute(t, 8);
    let mut s: [i32; 16] = [0; 16];
    let ghost start = AdstValues { t: t@, s: s@ };
    assert(s@ =~= Seq::new(16, |i: int| 0i32));
    for i in 0..4usize
        invariant
            (AdstValues { t: t@, s: s@ }) == adst_run(start, adst8_ops(), i as nat),
    {
        adst_wide(t, &mut s, 2 * i, 1 + 2 * i, 30 - 8 * i as i32, true);
    }
    for i in 0..4usize
        invariant
            (AdstValues { t: t@, s: s@ }) == adst_run(start, adst8_ops(), (4 + i) as nat),
    {
        adst_narrow(t, &s, i, 4 + i);
    }
    for i in 0..2usize
        invariant
            (AdstValues { t: t@, s: s@ }) == adst_run(start, adst8_ops(), (8 + i) as nat),
    {
        adst_wide(t, &mut s, 4 + 3 * i, 5 + i, 24 - 16 * i as i32, true);
    }
    for i in 0..2usize
        invariant
            (AdstValues { t: t@, s: s@ }) == adst_run(start, adst8_ops(), (10 + i) as nat),
    {
        adst_narrow(t, &s, 4 + i, 6 + i);
    }
    for i in 0..2usize
        invariant
            (AdstValues { t: t@, s: s@ }) == adst_run(start, adst8_ops(), (12 + i) as nat),
    {
        sum(t, i, 2 + i, false, Ghost(false));
    }
    for i in 0..2usize
        invariant
            (AdstValues { t: t@, s: s@ }) == adst_run(start, adst8_ops(), (14 + i) as nat),
    {
        rotate(t, 2 + 4 * i, 3 + 4 * i, 16, true, false);
    }
    adst8_output(t);
    assert(t@ =~= inverse_adst8(before));
}

fn iadst16(t: &mut [i32; 32])
    ensures
        final(t)@ == inverse_adst16(old(t)@),
{
    let ghost before = t@;
    adst_input_permute(t, 16);
    let mut s: [i32; 16] = [0; 16];
    let ghost start = AdstValues { t: t@, s: s@ };
    assert(s@ =~= Seq::new(16, |i: int| 0i32));
    for i in 0..8usize
        invariant
            (AdstValues { t: t@, s: s@ }) == adst_run(start, adst16_ops(), i as nat),
    {
        adst_wide(t, &mut s, 2 * i, 1 + 2 * i, 31 - 4 * i as i32, true);
    }
    for i in 0..8usize
        invariant
            (AdstValues { t: t@, s: s@ }) == adst_run(start, adst16_ops(), (8 + i) as nat),
    {
        adst_narrow(t, &s, i, 8 + i);
    }
    for i in 0..4usize
        invariant
            (AdstValues { t: t@, s: s@ }) == adst_run(start, adst16_ops(), (16 + i) as nat),
    {
        adst_wide(t, &mut s, 8 + 2 * i, 9 + 2 * i, 28 - 16 * i as i32, true);
    }
    for i in 0..4usize
        invariant
            (AdstValues { t: t@, s: s@ }) == adst_run(start, adst16_ops(), (20 + i) as nat),
    {
        adst_narrow(t, &s, 8 + i, 12 + i);
    }
    for i in 0..4usize
        invariant
            (AdstValues { t: t@, s: s@ }) == adst_run(start, adst16_ops(), (24 + i) as nat),
    {
        sum(t, i, 4 + i, false, Ghost(false));
    }
    for k in 0..4usize
        invariant
            (AdstValues { t: t@, s: s@ }) == adst_run(start, adst16_ops(), (28 + k) as nat),
    {
        let i: usize = k / 2;
        let j: usize = k % 2;
        adst_wide(t, &mut s, 4 + 8 * i + 3 * j, 5 + 8 * i + j, 24 - 16 * j as i32, true);
    }
    for k in 0..4usize
        invariant
            (AdstValues { t: t@, s: s@ }) == adst_run(start, adst16_ops(), (32 + k) as nat),
    {
        let i: usize = k / 2;
        let j: usize = k % 2;
        adst_narrow(t, &s, 4 + 8 * j + i, 6 + 8 * j + i);
    }
    for k in 0..4usize
        invariant
            (AdstValues { t: t@, s: s@ }) == adst_run(start, adst16_ops(), (36 + k) as nat),
    {
        let i: usize = k / 2;
        let j: usize = k % 2;
        sum(t, 8 * j + i, 2 + 8 * j + i, false, Ghost(false));
    }
    for k in 0..4usize
        invariant
            (AdstValues { t: t@, s: s@ }) == adst_run(start, adst16_ops(), (40 + k) as nat),
    {
        let i: usize = k / 2;
        let j: usize = k % 2;
        let angle: i32 = if i == j { 48 } else { 112 };
        rotate(t, 2 + 4 * j + 8 * i, 3 + 4 * j + 8 * i, angle, false, false);
    }
    adst16_output(t);
    assert(t@ =~= inverse_adst16(before));
}

fn iadst(t: &mut [i32; 32], n: u32)
    requires
        2 <= n <= 4,
    ensures
        final(t)@ == inverse_adst(old(t)@, n as nat),
{
    if n == 2 {
        iadst4(t);
    } else if n == 3 {
        iadst8(t);
    } else {
        iadst16(t);
    }
}

// ---------------------------------------------------------------------------
// Blocks.
// ---------------------------------------------------------------------------

/// Row `r` of a square block, with zeros behind it.
pub open spec fn block_row(s: Seq<i32>, n0: int, r: int) -> Seq<i32> {
    Seq::new(
        32,
        |k: int|
            if k < n0 {
                s[row_major(n0, k, r)]
            } else {
                0
            },
    )
}

/// One row, transformed.
pub open spec fn transformed_row(t: Seq<i32>, n: nat, adst: bool, hbd: bool) -> Seq<i32> {
    if adst {
        inverse_adst(t, n)
    } else {
        inverse_dct(t, n, hbd)
    }
}

/// A value divided by `2^shift`, rounded.
pub open spec fn shifted(v: int, shift: nat) -> int {
    if shift == 0 {
        v
    } else {
        wrap32(v + pow2((shift - 1) as nat)) / (pow2(shift) as int)
    }
}

/// A square block with its rows transformed and turned into columns.
pub open spec fn transformed_pass(
    s: Seq<i32>,
    n: nat,
    adst: bool,
    hbd: bool,
    shift: nat,
) -> Seq<i32> {
    let n0 = pow2(n) as int;
    Seq::new(
        (n0 * n0) as nat,
        |i: int|
            shifted(
                transformed_row(block_row(s, n0, i % n0), n, adst, hbd)[i / n0] as int,
                shift,
            ) as i32,
    )
}

/// Coefficients cut down to 32 bits.
pub open spec fn narrowed(dequant: Seq<i64>) -> Seq<i32> {
    dequant.map_values(|v: i64| wrap32(v as int) as i32)
}

/// The final scaling of a block of `2^n` by `2^n`.
pub open spec fn final_shift(n: nat) -> nat {
    if n + 2 < 6 {
        n + 2
    } else {
        6
    }
}

/// The residual of a block: its rows are transformed, then its columns, and the
/// result is scaled down.
pub open spec fn residual_block(
    dequant: Seq<i64>,
    n: nat,
    adst_rows: bool,
    adst_cols: bool,
    hbd: bool,
) -> Seq<i32> {
    transformed_pass(
        transformed_pass(narrowed(dequant), n, adst_rows, hbd, 0),
        n,
        adst_cols,
        hbd,
        final_shift(n),
    )
}

/// A plane with a residual added to the square block of side `n0` at
/// `(start_x, start_y)`, each sample limited to `0..=max`.
pub open spec fn reconstructed(
    data: Seq<u16>,
    width: int,
    start_x: int,
    start_y: int,
    residual: Seq<i32>,
    n0: int,
    max: int,
) -> Seq<u16> {
    Seq::new(
        data.len(),
        |p: int|
            {
                let i = p / width - start_y;
                let j = p % width - start_x;
                if 0 <= i < n0 && 0 <= j < n0 {
                    spec_clip3(0, max, wrap32(data[p] + residual[row_major(n0, j, i)])) as u16
                } else {
                    data[p]
                }
            },
    )
}

/// The block lies in the plane.
pub open spec fn block_in(len: int, width: int, start_x: int, start_y: int, n0: int) -> bool {
    &&& 0 <= start_x
    &&& 0 <= start_y
    &&& start_x + n0 <= width
    &&& (start_y + n0) * width <= len
}

proof fn lemma_shifted_range(v: i32, shift: nat)
    requires
        shift <= 6,
    ensures
        -0x8000_0000 <= shifted(v as int, shift) <= 0x7fff_ffff,
{
    lemma2_to64();
    if shift > 0 {
        let w = wrap32(v + pow2((shift - 1) as nat));
        let d = pow2(shift) as int;
        assert(-0x8000_0000 <= w / d <= 0x7fff_ffff) by (nonlinear_arith)
            requires
                -0x8000_0000 <= w <= 0x7fff_ffff,
                d >= 1,
        ;
    }
}

fn shift_down(v: i32, shift: u32) -> (r: i32)
    requires
        shift <= 6,
    ensures
        r == shifted(v as int, shift as nat),
{
    proof {
        lemma2_to64();
        lemma_shifted_range(v, shift as nat);
    }
    if shift == 0 {
        v
    } else {
        let w: i32 = wrap(v as i64 + power_of_two(shift - 1));
        floor_div(w as i64, power_of_two(shift)) as i32
    }
}

/// Transforms the rows of a square block and turns them into columns.
fn transform_pass(input: &Vec<i32>, n: u32, adst: bool, hbd: bool, shift: u32) -> (output: Vec<i32>)
    requires
        2 <= n <= 5,
        adst ==> n <= 4,
        shift <= 6,
        input.len() == pow2(n as nat) * pow2(n as nat),
    ensures
        output@ == transformed_pass(input@, n as nat, adst, hbd, shift as nat),
{
    proof {
        lemma2_to64();
    }
    let n0: usize = power_of_two(n) as usize;
    let ghost m = n0 as int;
    proof {
        assert(m * m <= 1024) by (nonlinear_arith)
            requires
                0 <= m <= 32,
        ;
    }
    let mut output: Vec<i32> = vec![0i32; n0 * n0];
    for r in 0..n0
        invariant
            2 <= n <= 5,
            adst ==> n <= 4,
            shift <= 6,
            n0 == pow2(n as nat),
            m == n0,
            4 <= n0 <= 32,
            m * m <= 1024,
            input.len() == m * m,
            output.len() == m * m,
            forall|k: int, c: int|
                0 <= k < n0 && 0 <= c < r ==> #[trigger] output[row_major(m, c, k)] == shifted(
                    transformed_row(block_row(input@, m, c), n as nat, adst, hbd)[k] as int,
                    shift as nat,
                ),
    {
        let t: [i32; 32] = transform_row(input, n0, r, n, adst, hbd);
        for k in 0..n0
            invariant
                shift <= 6,
                m == n0,
                4 <= n0 <= 32,
                m * m <= 1024,
                r < n0,
                output.len() == m * m,
                t@ == transformed_row(block_row(input@, m, r as int), n as nat, adst, hbd),
                forall|k2: int, c: int|
                    0 <= k2 < n0 && 0 <= c < r ==> #[trigger] output[row_major(m, c, k2)]
                        == shifted(
                        transformed_row(block_row(input@, m, c), n as nat, adst, hbd)[k2] as int,
                        shift as nat,
                    ),
                forall|k2: int|
                    0 <= k2 < k ==> #[trigger] output[row_major(m, r as int, k2)] == shifted(
                        t[k2] as int,
                        shift as nat,
                    ),
        {
            proof {
                lemma_row_major(m, m, r as int, k as int);
            }
            let v: i32 = shift_down(t[k], shift);
            let ghost prev = output@;
            output[k * n0 + r] = v;
            proof {
                assert forall|k2: int, c: int| 0 <= k2 < n0 && 0 <= c < r implies #[trigger] output[row_major(
                    m,
                    c,
                    k2,
                )] == prev[row_major(m, c, k2)] by {
                    lemma_row_major(m, m, c, k2);
                }
                assert forall|k2: int| 0 <= k2 < k implies #[trigger] output[row_major(
                    m,
                    r as int,
                    k2,
                )] == prev[row_major(m, r as int, k2)] by {
                    lemma_row_major(m, m, r as int, k2);
                }
            }
        }
    }
    proof {
        let want = transformed_pass(input@, n as nat, adst, hbd, shift as nat);
        assert forall|i: int| 0 <= i < m * m implies output@[i] == want[i] by {
            lemma_row_major_inverse(m, m, i);
            assert(output[row_major(m, i % m, i / m)] == shifted(
                transformed_row(block_row(input@, m, i % m), n as nat, adst, hbd)[i / m] as int,
                shift as nat,
            ));
        }
        assert(output@ =~= want);
    }
    output
}

/// Transforms one row of a square block.
fn transform_row(
    input: &Vec<i32>,
    n0: usize,
    r: usize,
    n: u32,
    adst: bool,
    hbd: bool,
) -> (t: [i32; 32])
    requires
        2 <= n <= 5,
        adst ==> n <= 4,
        n0 == pow2(n as nat),
        4 <= n0 <= 32,
        r < n0,
        input.len() == n0 * n0,
        n0 * n0 <= 1024,
    ensures
        t@ == transformed_row(block_row(input@, n0 as int, r as int), n as nat, adst, hbd),
{
    let mut t: [i32; 32] = [0; 32];
    for k in 0..n0
        invariant
            4 <= n0 <= 32,
            r < n0,
            input.len() == n0 * n0,
            n0 * n0 <= 1024,
            forall|k2: int|
                0 <= k2 < 32 ==> #[trigger] t[k2] == if k2 < k {
                    input@[row_major(n0 as int, k2, r as int)]
                } else {
                    0
                },
    {
        proof {
            lemma_row_major(n0 as int, n0 as int, k as int, r as int);
        }
        t[k] = input[r * n0 + k];
    }
    assert(t@ =~= block_row(input@, n0 as int, r as int));
    if adst {
        iadst(&mut t, n);
    } else {
        idct_permute(&mut t, n);
        idct(&mut t, n, hbd);
    }
    t
}

/// Computes the residual of a block.
fn inverse_transform(
    dequant: &[i64],
    n: u32,
    adst_rows: bool,
    adst_cols: bool,
    hbd: bool,
) -> (o: Vec<i32>)
    requires
        2 <= n <= 5,
        adst_rows || adst_cols ==> n <= 4,
        dequant.len() == pow2(n as nat) * pow2(n as nat),
    ensures
        o@ == residual_block(dequant@, n as nat, adst_rows, adst_cols, hbd),
        o.len() == pow2(n as nat) * pow2(n as nat),
{
    let mut buf: Vec<i32> = Vec::with_capacity(dequant.len());
    for i in 0..dequant.len()
        invariant
            buf.len() == i,
            forall|k: int| 0 <= k < i ==> #[trigger] buf[k] == wrap32(dequant[k] as int),
    {
        buf.push(wrap(dequant[i]));
    }
    assert(buf@ =~= narrowed(dequant@));
    let rows: Vec<i32> = transform_pass(&buf, n, adst_rows, hbd, 0);
    let shift: u32 = if n + 2 < 6 { n + 2 } else { 6 };
    transform_pass(&rows, n, adst_cols, hbd, shift)
}

/// Adds a residual to a block of a plane.
fn reconstruct_add_clip(
    plane_data: &mut [u16],
    plane_width: usize,
    start_x: usize,
    start_y: usize,
    o: &Vec<i32>,
    n0: usize,
    max_val: i32,
)
    requires
        4 <= n0 <= 32,
        o.len() == n0 * n0,
        0 <= max_val <= 0xffff,
        block_in(
            old(plane_data)@.len() as int,
            plane_width as int,
            start_x as int,
            start_y as int,
            n0 as int,
        ),
    ensures
        final(plane_data)@ == reconstructed(
            old(plane_data)@,
            plane_width as int,
            start_x as int,
            start_y as int,
            o@,
            n0 as int,
            max_val as int,
        ),
{
    let ghost before = plane_data@;
    let ghost w = plane_width as int;
    let ghost m = n0 as int;
    let ghost want = reconstructed(before, w, start_x as int, start_y as int, o@, m, max_val as int);
    let len: usize = plane_data.len();
    for i in 0..n0
        invariant
            4 <= n0 <= 32,
            m == n0,
            w == plane_width,
            o.len() == n0 * n0,
            0 <= max_val <= 0xffff,
            len == before.len(),
            plane_data@.len() == len,
            block_in(len as int, w, start_x as int, start_y as int, m),
            want == reconstructed(
                before,
                w,
                start_x as int,
                start_y as int,
                o@,
                m,
                max_val as int,
            ),
            forall|p: int|
                0 <= p < len ==> #[trigger] plane_data@[p] == if p / w < start_y + i {
                    want[p]
                } else {
                    before[p]
                },
    {
        for j in 0..n0
            invariant
                4 <= n0 <= 32,
                i < n0,
                m == n0,
                w == plane_width,
                o.len() == n0 * n0,
                0 <= max_val <= 0xffff,
                len == before.len(),
                plane_data@.len() == len,
                block_in(len as int, w, start_x as int, start_y as int, m),
                want == reconstructed(
                    before,
                    w,
                    start_x as int,
                    start_y as int,
                    o@,
                    m,
                    max_val as int,
                ),
                forall|p: int|
                    0 <= p < len ==> #[trigger] plane_data@[p] == if p / w < start_y + i || (p / w
                        == start_y + i && p % w < start_x + j) {
                        want[p]
                    } else {
                        before[p]
                    },
        {
            proof {
                lemma_row_major(w, start_y + m, start_x + j, start_y + i);
                lemma_row_major(m, m, j as int, i as int);
                assert(w * (start_y + m) == (start_y + m) * w) by (nonlinear_arith);
                assert(m * m <= 1024) by (nonlinear_arith)
                    requires
                        0 <= m <= 32,
                ;
            }
            let at: usize = (start_y + i) * plane_width + start_x + j;
            let sum: i32 = wrap(plane_data[at] as i64 + o[i * n0 + j] as i64);
            let v: i32 = crate::common::clip3(0, max_val, sum);
            let ghost prev = plane_data@;
            plane_data[at] = v as u16;
            proof {
                assert forall|p: int| 0 <= p < len implies #[trigger] plane_data@[p] == if p / w
                    < start_y + i || (p / w == start_y + i && p % w < start_x + j + 1) {
                    want[p]
                } else {
                    before[p]
                } by {
                    lemma_position_of(w, p);
                    if p != at {
                        assert(plane_data@[p] == prev[p]);
                        if p / w == start_y + i && p % w == start_x + j {
                            assert(p == row_major(w, p % w, p / w));
                        }
                    }
                }
            }
        }
        proof {
            assert forall|p: int| 0 <= p < len implies #[trigger] plane_data@[p] == if p / w < start_y
                + i + 1 {
                want[p]
            } else {
                before[p]
            } by {
                lemma_position_of(w, p);
            }
        }
    }
    proof {
        assert forall|p: int| 0 <= p < len implies plane_data@[p] == want[p] by {
            lemma_position_of(w, p);
        }
        assert(plane_data@ =~= want);
    }
}

/// An index is that of its row and column.
proof fn lemma_position_of(w: int, p: int)
    requires
        0 < w,
        0 <= p,
    ensures
        p == row_major(w, p % w, p / w),
        0 <= p % w < w,
        0 <= p / w,
{
    vstd::arithmetic::div_mod::lemma_fundamental_div_mod(p, w);
    assert(w * (p / w) == (p / w) * w) by (nonlinear_arith);
    vstd::arithmetic::div_mod::lemma_div_pos_is_pos(p, w);
}

/// Transforms the coefficients of an 8-bit block with the inverse DCT in both
/// directions and adds the result to the block at `(start_x, start_y)` of a
/// plane whose rows are `plane_width` samples wide.
pub fn inverse_transform_dct_dct_reconstruct(
    plane_data: &mut [u16],
    plane_width: usize,
    start_x: usize,
    start_y: usize,
    dequant: &[i64],
    n: u32,
)
    requires
        2 <= n <= 5,
        dequant.len() == pow2(n as nat) * pow2(n as nat),
        block_in(
            old(plane_data)@.len() as int,
            plane_width as int,
            start_x as int,
            start_y as int,
            pow2(n as nat) as int,
        ),
    ensures
        final(plane_data)@ == reconstructed(
            old(plane_data)@,
            plane_width as int,
            start_x as int,
            start_y as int,
            residual_block(dequant@, n as nat, false, false, false),
            pow2(n as nat) as int,
            255,
        ),
{
    proof {
        lemma2_to64();
    }
    let n0: usize = power_of_two(n) as usize;
    let o: Vec<i32> = inverse_transform(dequant, n, false, false, false);
    reconstruct_add_clip(plane_data, plane_width, start_x, start_y, &o, n0, 255);
}

/// The same for samples of `bit_depth` bits.
pub fn inverse_transform_dct_dct_reconstruct_hbd(
    plane_data: &mut [u16],
    plane_width: usize,
    start_x: usize,
    start_y: usize,
    dequant: &[i64],
    n: u32,
    bit_depth: u8,
)
    requires
        2 <= n <= 5,
        bit_depth <= 16,
        dequant.len() == pow2(n as nat) * pow2(n as nat),
        block_in(
            old(plane_data)@.len() as int,
            plane_width as int,
            start_x as int,
            start_y as int,
            pow2(n as nat) as int,
        ),
    ensures
        final(plane_data)@ == reconstructed(
            old(plane_data)@,
            plane_width as int,
            start_x as int,
            start_y as int,
            residual_block(dequant@, n as nat, false, false, true),
            pow2(n as nat) as int,
            pow2(bit_depth as nat) - 1,
        ),
{
    proof {
        lemma2_to64();
    }
    let n0: usize = power_of_two(n) as usize;
    let max_val: i32 = (power_of_two(bit_depth as u32) - 1) as i32;
    let o: Vec<i32> = inverse_transform(dequant, n, false, false, true);
    reconstruct_add_clip(plane_data, plane_width, start_x, start_y, &o, n0, max_val);
}

/// Whether the rows of a block use the ADST.
pub open spec fn uses_adst_rows(tx_type: TxType) -> bool {
    tx_type == TxType::DctAdst || tx_type == TxType::AdstAdst
}

/// Whether the columns of a block use the ADST.
pub open spec fn uses_adst_cols(tx_type: TxType) -> bool {
    tx_type == TxType::AdstDct || tx_type == TxType::AdstAdst
}

/// The same for an 8-bit block that uses the ADST in at least one direction.
pub fn inverse_transform_adst_reconstruct(
    plane_data: &mut [u16],
    plane_width: usize,
    start_x: usize,
    start_y: usize,
    dequant: &[i64],
    n: u32,
    tx_type: TxType,
)
    requires
        2 <= n <= 4,
        tx_type != TxType::DctDct,
        dequant.len() == pow2(n as nat) * pow2(n as nat),
        block_in(
            old(plane_data)@.len() as int,
            plane_width as int,
            start_x as int,
            start_y as int,
            pow2(n as nat) as int,
        ),
    ensures
        final(plane_data)@ == reconstructed(
            old(plane_data)@,
            plane_width as int,
            start_x as int,
            start_y as int,
            residual_block(
                dequant@,
                n as nat,
                uses_adst_rows(tx_type),
                uses_adst_cols(tx_type),
                false,
            ),
            pow2(n as nat) as int,
            255,
        ),
{
    proof {
        lemma2_to64();
    }
    let n0: usize = power_of_two(n) as usize;
    let adst_rows: bool = tx_type == TxType::DctAdst || tx_type == TxType::AdstAdst;
    let adst_cols: bool = tx_type == TxType::AdstDct || tx_type == TxType::AdstAdst;
    let o: Vec<i32> = inverse_transform(dequant, n, adst_rows, adst_cols, false);
    reconstruct_add_clip(plane_data, plane_width, start_x, start_y, &o, n0, 255);
}

/// Reconstruction leaves every sample outside the block as it is, and keeps the
/// samples of the block within `0..=max`.
pub proof fn lemma_reconstruction_is_local(
    data: Seq<u16>,
    width: int,
    start_x: int,
    start_y: int,
    residual: Seq<i32>,
    n0: int,
    max: int,
    x: int,
    y: int,
)
    requires
        0 <= x < width,
        0 <= y,
        row_major(width, x, y) < data.len(),
        0 <= max <= 0xffff,
    ensures
        ({
            let out = reconstructed(data, width, start_x, start_y, residual, n0, max);
            let p = row_major(width, x, y);
            if start_x <= x < start_x + n0 && start_y <= y < start_y + n0 {
                0 <= out[p] <= max
            } else {
                out[p] == data[p]
            }
        }),
{
    lemma_row_major(width, y + 1, x, y);
}

} // verus!
