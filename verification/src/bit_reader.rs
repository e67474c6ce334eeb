//! Raw bit reader for the uncompressed frame header.
//!
//! The uncompressed header is not entropy coded: it is read bit by bit, most
//! significant bit first. `f(n)` is an unsigned `n`-bit integer, `s(n)` an
//! `n`-bit absolute value followed by a sign bit. Past the end of the data
//! every bit reads as 0.

use vstd::prelude::*;

verus! {

/// The bit at absolute position `pos` (0 is the most significant bit of the
/// first byte); 0 beyond the data.
pub open spec fn bit_at(data: Seq<u8>, pos: int) -> int {
    if 0 <= pos / 8 < data.len() {
        ((data[pos / 8] >> ((7 - pos % 8) as u8)) & 1u8) as int
    } else {
        0
    }
}

/// The unsigned value of the `n` bits that start at `pos`.
pub open spec fn bits_value(data: Seq<u8>, pos: int, n: nat) -> int
    decreases n,
{
    if n == 0 {
        0
    } else {
        2 * bits_value(data, pos, (n - 1) as nat) + bit_at(data, pos + n - 1)
    }
}

/// The signed value of an `n`-bit magnitude at `pos` followed by a sign bit.
pub open spec fn signed_value(data: Seq<u8>, pos: int, n: nat) -> int {
    if bit_at(data, pos + n) == 1 {
        -bits_value(data, pos, n)
    } else {
        bits_value(data, pos, n)
    }
}

/// A bit is 0 or 1.
pub proof fn lemma_bit_at_range(data: Seq<u8>, pos: int)
    ensures
        0 <= bit_at(data, pos) <= 1,
{
    if 0 <= pos / 8 < data.len() {
        let b = data[pos / 8];
        let k = (7 - pos % 8) as u8;
        assert((b >> k) & 1u8 <= 1u8) by (bit_vector);
    }
}

/// `n` bits hold a value below `2^n`; spelled out for the widths that a `u32`
/// or an `i32` can hold.
pub proof fn lemma_bits_value_range(data: Seq<u8>, pos: int, n: nat)
    ensures
        0 <= bits_value(data, pos, n) < vstd::arithmetic::power2::pow2(n),
        n <= 31 ==> bits_value(data, pos, n) <= i32::MAX,
        n <= 32 ==> bits_value(data, pos, n) <= u32::MAX,
        n <= 16 ==> bits_value(data, pos, n) <= u16::MAX,
        n <= 8 ==> bits_value(data, pos, n) <= u8::MAX,
        n <= 7 ==> bits_value(data, pos, n) <= 127,
        n <= 6 ==> bits_value(data, pos, n) <= 63,
        n <= 5 ==> bits_value(data, pos, n) <= 31,
        n <= 4 ==> bits_value(data, pos, n) <= 15,
        n <= 3 ==> bits_value(data, pos, n) <= 7,
        n <= 2 ==> bits_value(data, pos, n) <= 3,
        n <= 1 ==> bits_value(data, pos, n) <= 1,
    decreases n,
{
    vstd::arithmetic::power2::lemma2_to64();
    if n > 0 {
        lemma_bits_value_range(data, pos, (n - 1) as nat);
        lemma_bit_at_range(data, pos + n - 1);
        vstd::arithmetic::power2::lemma_pow2_unfold(n);
    }
    if n < 32 {
        vstd::arithmetic::power2::lemma_pow2_strictly_increases(n, 32);
    }
    if n < 31 {
        vstd::arithmetic::power2::lemma_pow2_strictly_increases(n, 31);
    }
    if n < 16 {
        vstd::arithmetic::power2::lemma_pow2_strictly_increases(n, 16);
    }
    if n < 8 {
        vstd::arithmetic::power2::lemma_pow2_strictly_increases(n, 8);
    }
}

/// Reading `n + m` bits is reading `n` bits and then `m` more.
pub proof fn lemma_bits_value_concat(data: Seq<u8>, pos: int, n: nat, m: nat)
    ensures
        bits_value(data, pos, n + m) == bits_value(data, pos, n)
            * vstd::arithmetic::power2::pow2(m) + bits_value(data, pos + n, m),
    decreases m,
{
    vstd::arithmetic::power2::lemma2_to64();
    if m == 0 {
        assert(bits_value(data, pos, n) * 1 == bits_value(data, pos, n));
    } else {
        lemma_bits_value_concat(data, pos, n, (m - 1) as nat);
        vstd::arithmetic::power2::lemma_pow2_unfold(m);
        let a = bits_value(data, pos, n);
        let p = vstd::arithmetic::power2::pow2((m - 1) as nat) as int;
        assert(2 * (a * p) == a * (2 * p)) by (nonlinear_arith);
        assert((n + m - 1) as nat == n + (m - 1) as nat);
    }
}

/// Fewer bits hold a smaller value.
proof fn lemma_bits_value_monotone(data: Seq<u8>, pos: int, k: nat, n: nat)
    requires
        k <= n,
    ensures
        0 <= bits_value(data, pos, k) <= bits_value(data, pos, n),
    decreases n - k,
{
    lemma_bits_value_range(data, pos, k);
    if k < n {
        lemma_bits_value_monotone(data, pos, k, (n - 1) as nat);
        lemma_bit_at_range(data, pos + n - 1);
    }
}

/// Past the end of the data every value reads as 0.
pub proof fn lemma_past_end_is_zero(data: Seq<u8>, pos: int, n: nat)
    requires
        pos >= 8 * data.len(),
    ensures
        bits_value(data, pos, n) == 0,
    decreases n,
{
    if n > 0 {
        lemma_past_end_is_zero(data, pos, (n - 1) as nat);
    }
}

/// The eight bits of a byte are the byte.
pub proof fn lemma_byte_is_its_bits(data: Seq<u8>, i: int)
    requires
        0 <= i < data.len(),
    ensures
        bits_value(data, 8 * i, 8) == data[i],
{
    let b = data[i];
    assert(128 * ((b >> 7u8) & 1u8) + 64 * ((b >> 6u8) & 1u8) + 32 * ((b >> 5u8) & 1u8) + 16 * ((b
        >> 4u8) & 1u8) + 8 * ((b >> 3u8) & 1u8) + 4 * ((b >> 2u8) & 1u8) + 2 * ((b >> 1u8) & 1u8)
        + ((b >> 0u8) & 1u8) == b) by (bit_vector);
    reveal_with_fuel(bits_value, 9);
}

/// MSB-first raw bit reader.
#[derive(Debug)]
pub struct BitReader<'a> {
    data: &'a [u8],
    /// Absolute position of the next bit to read (0 = the MSB of the first byte).
    bit_pos: usize,
}

impl<'a> Clone for BitReader<'a> {
    fn clone(&self) -> (r: Self)
        ensures
            r.bytes() == self.bytes(),
            r.pos() == self.pos(),
    {
        BitReader { data: self.data, bit_pos: self.bit_pos }
    }
}

impl<'a> BitReader<'a> {
    /// The bytes that are read from.
    pub closed spec fn bytes(self) -> Seq<u8> {
        self.data@
    }

    /// The absolute position of the next bit.
    pub closed spec fn pos(self) -> int {
        self.bit_pos as int
    }

    /// Creates a new `BitReader`.
    pub fn new(data: &'a [u8]) -> (r: Self)
        ensures
            r.bytes() == data@,
            r.pos() == 0,
    {
        Self { data, bit_pos: 0 }
    }

    /// Reads one bit; 0 past the end of the data.
    fn read_bit(&mut self) -> (bit: u32)
        requires
            old(self).pos() < usize::MAX,
        ensures
            bit == bit_at(old(self).bytes(), old(self).pos()),
            final(self).bytes() == old(self).bytes(),
            final(self).pos() == old(self).pos() + 1,
    {
        let byte_index: usize = self.bit_pos / 8;
        let bit_index_from_msb: usize = 7 - (self.bit_pos % 8);
        self.bit_pos += 1;
        if byte_index >= self.data.len() {
            return 0;
        }
        ((self.data[byte_index] >> (bit_index_from_msb as u8)) & 1) as u32
    }

    /// `f(n)`: reads `n` bits, most significant first, as an unsigned integer.
    pub fn f(&mut self, n: u32) -> (x: u32)
        requires
            old(self).pos() + n <= usize::MAX,
            n <= 32 || bits_value(old(self).bytes(), old(self).pos(), n as nat) <= u32::MAX,
        ensures
            x == bits_value(old(self).bytes(), old(self).pos(), n as nat),
            final(self).bytes() == old(self).bytes(),
            final(self).pos() == old(self).pos() + n,
    {
        proof {
            lemma_bits_value_range(self.bytes(), self.pos(), n as nat);
        }
        let ghost d = self.bytes();
        let ghost p = self.pos();
        let mut x: u32 = 0;
        for i in 0..n
            invariant
                self.bytes() == d,
                self.pos() == p + i,
                p + n <= usize::MAX,
                x == bits_value(d, p, i as nat),
                bits_value(d, p, n as nat) <= u32::MAX,
        {
            proof {
                lemma_bits_value_monotone(d, p, (i + 1) as nat, n as nat);
                lemma_bit_at_range(d, p + i);
            }
            x = 2 * x + self.read_bit();
        }
        x
    }

    /// `s(n)`: an `n`-bit absolute value followed by a sign bit.
    pub fn s(&mut self, n: u32) -> (x: i32)
        requires
            old(self).pos() + n + 1 <= usize::MAX,
            n <= 31 || bits_value(old(self).bytes(), old(self).pos(), n as nat) <= i32::MAX,
        ensures
            x == signed_value(old(self).bytes(), old(self).pos(), n as nat),
            final(self).bytes() == old(self).bytes(),
            final(self).pos() == old(self).pos() + n + 1,
    {
        proof {
            lemma_bits_value_range(self.bytes(), self.pos(), n as nat);
            reveal_with_fuel(bits_value, 2);
        }
        let value: i32 = self.f(n) as i32;
        let sign: u32 = self.f(1);
        if sign == 1 {
            -value
        } else {
            value
        }
    }

    /// Reads `f(1)` as a bool.
    pub fn flag(&mut self) -> (b: bool)
        requires
            old(self).pos() < usize::MAX,
        ensures
            b == (bit_at(old(self).bytes(), old(self).pos()) == 1),
            final(self).bytes() == old(self).bytes(),
            final(self).pos() == old(self).pos() + 1,
    {
        proof {
            reveal_with_fuel(bits_value, 2);
        }
        self.f(1) == 1
    }

    /// The current bit position (absolute bit count from the start).
    pub fn bit_position(&self) -> (p: usize)
        ensures
            p == self.pos(),
    {
        self.bit_pos
    }

    /// Whether the current bit position lies on a byte boundary.
    pub fn is_byte_aligned(&self) -> (b: bool)
        ensures
            b == (self.pos() % 8 == 0),
    {
        self.bit_pos % 8 == 0
    }

    /// The number of bytes consumed up to and including the byte that holds the
    /// current bit position (rounded up if not on a byte boundary).
    pub fn byte_position_ceil(&self) -> (n: usize)
        ensures
            n == (self.pos() + 7) / 8,
    {
        let whole: usize = self.bit_pos / 8;
        if self.bit_pos % 8 == 0 {
            whole
        } else {
            whole + 1
        }
    }
}

} // verus!
