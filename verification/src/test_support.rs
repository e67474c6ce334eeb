//! Writers that mirror the readers, for building streams by hand: a bit writer
//! for headers and a bool encoder for everything behind them. [`script`] holds a
//! block layer that plays back prepared blocks.
//!
//! What they write is read back: see [`lemma_bits_read_back`] and
//! [`lemma_bools_read_back`].

use vstd::arithmetic::div_mod::lemma_div_denominator;
use vstd::arithmetic::power2::{lemma2_to64, lemma_pow2_pos, lemma_pow2_unfold, pow2};
use vstd::prelude::*;
use crate::bit_reader::{
    bit_at, bits_value, lemma_bits_value_concat, lemma_bits_value_range, signed_value,
};
use crate::bool_coder::{
    after_bool, after_literal, decoded_bool, decoded_literal, loaded_state, renormalized, shift_in,
    split_at, BoolState,
};
use crate::common::power_of_two;

pub mod script;

verus! {

// ---------------------------------------------------------------------------
// Bits and bytes.
// ---------------------------------------------------------------------------

/// All entries are 0 or 1.
pub open spec fn are_bits(s: Seq<u8>) -> bool {
    forall|i: int| 0 <= i < s.len() ==> #[trigger] s[i] <= 1
}

/// The number that bits stand for, most significant first.
pub open spec fn binary(s: Seq<u8>) -> int
    decreases s.len(),
{
    if s.len() == 0 {
        0
    } else {
        2 * binary(s.drop_last()) + s.last()
    }
}

/// The low `n` bits of a number, most significant first.
pub open spec fn digits(v: int, n: nat) -> Seq<u8> {
    Seq::new(n, |i: int| ((v / (pow2((n - 1 - i) as nat) as int)) % 2) as u8)
}

/// The bytes hold the bits, followed by zeros.
pub open spec fn packed(bits: Seq<u8>, bytes: Seq<u8>) -> bool {
    &&& bits.len() <= 8 * bytes.len() < bits.len() + 8
    &&& forall|p: int|
        0 <= p ==> #[trigger] bit_at(bytes, p) == if p < bits.len() {
            bits[p] as int
        } else {
            0
        }
}

proof fn lemma_digits_push(v: int, n: nat)
    requires
        0 <= v,
        n > 0,
    ensures
        digits(v, n) == digits(v / 2, (n - 1) as nat).push((v % 2) as u8),
{
    let rest = digits(v / 2, (n - 1) as nat);
    lemma2_to64();
    assert forall|i: int| 0 <= i < n implies digits(v, n)[i] == rest.push((v % 2) as u8)[i] by {
        if i < n - 1 {
            let k = (n - 2 - i) as nat;
            lemma_pow2_unfold((n - 1 - i) as nat);
            lemma_pow2_pos(k);
            lemma_div_denominator(v, 2, pow2(k) as int);
            assert(pow2((n - 1 - i) as nat) == 2 * pow2(k));
            assert(rest[i] == (((v / 2) / (pow2(k) as int)) % 2) as u8);
        } else {
            assert(v / 1 == v);
        }
    }
    assert(digits(v, n) =~= rest.push((v % 2) as u8));
}

/// The digits of a number stand for it.
proof fn lemma_binary_digits(v: int, n: nat)
    requires
        0 <= v < pow2(n),
    ensures
        binary(digits(v, n)) == v,
        are_bits(digits(v, n)),
    decreases n,
{
    lemma2_to64();
    if n > 0 {
        lemma_pow2_unfold(n);
        lemma_binary_digits(v / 2, (n - 1) as nat);
        lemma_digits_push(v, n);
        let rest = digits(v / 2, (n - 1) as nat);
        assert(rest.push((v % 2) as u8).drop_last() =~= rest);
    }
}

/// Reading packed bits gives the number that they stand for.
proof fn lemma_packed_value(bits: Seq<u8>, bytes: Seq<u8>, pos: int, n: nat)
    requires
        packed(bits, bytes),
        0 <= pos,
        pos + n <= bits.len(),
    ensures
        bits_value(bytes, pos, n) == binary(bits.subrange(pos, pos + n)),
    decreases n,
{
    if n > 0 {
        lemma_packed_value(bits, bytes, pos, (n - 1) as nat);
        let s = bits.subrange(pos, pos + n);
        assert(s.drop_last() =~= bits.subrange(pos, pos + n - 1));
        assert(bit_at(bytes, pos + n - 1) == bits[pos + n - 1]);
    }
}

/// The byte of eight bits.
pub open spec fn byte_of(s: Seq<u8>, start: int) -> int {
    128 * s[start] + 64 * s[start + 1] + 32 * s[start + 2] + 16 * s[start + 3] + 8 * s[start + 4]
        + 4 * s[start + 5] + 2 * s[start + 6] + s[start + 7]
}

/// The bits of a byte are those that it was made of.
proof fn lemma_byte_bits(b: u8, s: Seq<u8>, start: int, k: int)
    requires
        0 <= k < 8,
        0 <= start,
        start + 8 <= s.len(),
        are_bits(s),
        b == byte_of(s, start),
    ensures
        (b >> ((7 - k) as u8)) & 1u8 == s[start + k],
{
    assert(s[start] <= 1 && s[start + 1] <= 1 && s[start + 2] <= 1 && s[start + 3] <= 1);
    assert(s[start + 4] <= 1 && s[start + 5] <= 1 && s[start + 6] <= 1 && s[start + 7] <= 1);
    if k == 0 {
        assert((b >> 7u8) & 1u8 == (b / 128u8) % 2u8) by (bit_vector);
    } else if k == 1 {
        assert((b >> 6u8) & 1u8 == (b / 64u8) % 2u8) by (bit_vector);
    } else if k == 2 {
        assert((b >> 5u8) & 1u8 == (b / 32u8) % 2u8) by (bit_vector);
    } else if k == 3 {
        assert((b >> 4u8) & 1u8 == (b / 16u8) % 2u8) by (bit_vector);
    } else if k == 4 {
        assert((b >> 3u8) & 1u8 == (b / 8u8) % 2u8) by (bit_vector);
    } else if k == 5 {
        assert((b >> 2u8) & 1u8 == (b / 4u8) % 2u8) by (bit_vector);
    } else if k == 6 {
        assert((b >> 1u8) & 1u8 == (b / 2u8) % 2u8) by (bit_vector);
    } else {
        assert((b >> 0u8) & 1u8 == b % 2u8) by (bit_vector);
    }
}

/// Packs bits into bytes.
fn pack_bits(bits: Vec<u8>) -> (bytes: Vec<u8>)
    requires
        are_bits(bits@),
    ensures
        packed(bits@, bytes@),
{
    let ghost given = bits@;
    let mut bits: Vec<u8> = bits;
    while bits.len() % 8 != 0
        invariant
            are_bits(bits@),
            given.len() <= bits.len(),
            given.len() % 8 == 0 ==> bits.len() == given.len(),
            bits.len() as int / 8 == given.len() as int / 8 || (bits.len() % 8 == 0 && bits.len()
                as int / 8 == given.len() as int / 8 + 1),
            forall|i: int| 0 <= i < given.len() ==> #[trigger] bits[i] == given[i],
            forall|i: int| given.len() <= i < bits.len() ==> #[trigger] bits[i] == 0,
        decreases (8 - bits.len() % 8) % 8,
    {
        bits.push(0);
    }
    let mut bytes: Vec<u8> = Vec::new();
    let n: usize = bits.len() / 8;
    for i in 0..n
        invariant
            n == bits.len() / 8,
            are_bits(bits@),
            bytes.len() == i,
            forall|k: int| 0 <= k < i ==> #[trigger] bytes[k] == byte_of(bits@, 8 * k),
    {
        let s: usize = 8 * i;
        assert(bits[s as int] <= 1 && bits[s + 1] <= 1 && bits[s + 2] <= 1 && bits[s + 3] <= 1);
        assert(bits[s + 4] <= 1 && bits[s + 5] <= 1 && bits[s + 6] <= 1 && bits[s + 7] <= 1);
        let byte: u8 = 128 * bits[s] + 64 * bits[s + 1] + 32 * bits[s + 2] + 16 * bits[s + 3] + 8
            * bits[s + 4] + 4 * bits[s + 5] + 2 * bits[s + 6] + bits[s + 7];
        bytes.push(byte);
    }
    proof {
        assert forall|p: int| 0 <= p implies #[trigger] bit_at(bytes@, p) == if p < given.len() {
            given[p] as int
        } else {
            0
        } by {
            let i = p / 8;
            if i < bytes.len() {
                assert(bytes[i] == byte_of(bits@, 8 * i));
                lemma_byte_bits(bytes[i], bits@, 8 * i, p % 8);
                assert(8 * i + p % 8 == p);
                assert(bits[p] == if p < given.len() { given[p] } else { 0u8 });
            }
        }
    }
    bytes
}

// ---------------------------------------------------------------------------
// The bit writer.
// ---------------------------------------------------------------------------

/// Writes bits, most significant first.
#[derive(Debug)]
pub struct BitWriter {
    pub bits: Vec<u8>,
}

impl BitWriter {
    /// What has been written is bits.
    pub open spec fn wf(&self) -> bool {
        are_bits(self.bits@)
    }

    /// A writer that has written nothing.
    pub fn new() -> (w: Self)
        ensures
            w.wf(),
            w.bits@ == Seq::<u8>::empty(),
    {
        BitWriter { bits: Vec::new() }
    }

    /// Writes the low `n` bits of a value, which has no more.
    pub fn push_bits(&mut self, value: u32, n: u32)
        requires
            old(self).wf(),
            n <= 32,
            value < pow2(n as nat),
        ensures
            final(self).wf(),
            final(self).bits@ == old(self).bits@ + digits(value as int, n as nat),
    {
        let ghost before = self.bits@;
        let ghost all = digits(value as int, n as nat);
        for i in 0..n
            invariant
                n <= 32,
                self.wf(),
                all == digits(value as int, n as nat),
                self.bits@ == before + all.subrange(0, i as int),
        {
            let p: i64 = power_of_two(n - 1 - i);
            let bit: u8 = ((value as i64 / p) % 2) as u8;
            self.bits.push(bit);
            assert(bit == all[i as int]);
            assert(self.bits@ =~= before + all.subrange(0, i + 1));
        }
        assert(all.subrange(0, n as int) =~= all);
    }

    /// Writes one bit.
    pub fn push_flag(&mut self, value: bool)
        requires
            old(self).wf(),
        ensures
            final(self).wf(),
            final(self).bits@ == old(self).bits@.push(if value { 1u8 } else { 0u8 }),
    {
        self.bits.push(if value { 1 } else { 0 });
    }

    /// Writes an `n`-bit magnitude and a sign bit.
    pub fn push_signed(&mut self, value: i32, n: u32)
        requires
            old(self).wf(),
            n <= 32,
            -(pow2(n as nat) as int) < value < pow2(n as nat),
            value > i32::MIN,
        ensures
            final(self).wf(),
            final(self).bits@ == (old(self).bits@ + digits(
                if value < 0 {
                    -value as int
                } else {
                    value as int
                },
                n as nat,
            )).push(if value < 0 { 1u8 } else { 0u8 }),
    {
        let magnitude: u32 = if value < 0 { (-value) as u32 } else { value as u32 };
        self.push_bits(magnitude, n);
        self.push_flag(value < 0);
    }

    /// The bytes of what was written, filled up with zeros.
    pub fn finish(self) -> (bytes: Vec<u8>)
        requires
            self.wf(),
        ensures
            packed(self.bits@, bytes@),
    {
        pack_bits(self.bits)
    }
}

/// A value that was written is read back from where it was written, with its
/// sign where it has one.
pub proof fn lemma_bits_read_back(bits: Seq<u8>, bytes: Seq<u8>, pos: int, v: int, n: nat)
    requires
        packed(bits, bytes),
        0 <= pos,
        pos + n <= bits.len(),
        0 <= v < pow2(n),
        bits.subrange(pos, pos + n) == digits(v, n),
    ensures
        bits_value(bytes, pos, n) == v,
        pos + n < bits.len() ==> signed_value(bytes, pos, n) == if bits[pos + n] == 1 {
            -v
        } else {
            v
        },
{
    lemma_packed_value(bits, bytes, pos, n);
    lemma_binary_digits(v, n);
    if pos + n < bits.len() {
        assert(bit_at(bytes, pos + n) == bits[pos + n]);
    }
}

// ---------------------------------------------------------------------------
// The bool encoder.
// ---------------------------------------------------------------------------

/// The state of the encoder: the lower end of the interval that the code will
/// lie in, its width, and the number of bits of the two.
pub struct EncoderState {
    pub low: int,
    pub range: int,
    pub len: int,
}

/// The state before the marker.
pub open spec fn encoder_start() -> EncoderState {
    EncoderState { low: 0, range: 255, len: 8 }
}

/// Doubles the interval until its width is at least 128.
pub open spec fn widened(st: EncoderState) -> EncoderState
    decreases 256 - st.range,
{
    if st.range <= 0 || st.range >= 128 {
        st
    } else {
        widened(EncoderState { low: 2 * st.low, range: 2 * st.range, len: st.len + 1 })
    }
}

/// The part of the interval that stands for a bool.
pub open spec fn narrowed_to(st: EncoderState, bit: bool, p: u8) -> EncoderState {
    let split = split_at(st.range, p);
    if bit {
        EncoderState { low: st.low + split, range: st.range - split, ..st }
    } else {
        EncoderState { range: split, ..st }
    }
}

/// The state after a bool.
pub open spec fn encoded(st: EncoderState, bit: bool, p: u8) -> EncoderState {
    widened(narrowed_to(st, bit, p))
}

/// The state after the first `k` bools of a list, each with its probability.
pub open spec fn encoded_all(bools: Seq<(bool, u8)>, k: nat) -> EncoderState
    decreases k,
{
    if k == 0 {
        encoder_start()
    } else {
        encoded(encoded_all(bools, (k - 1) as nat), bools[k - 1].0, bools[k - 1].1)
    }
}

/// What holds of the encoder between bools.
pub open spec fn encoder_valid(st: EncoderState) -> bool {
    &&& 0 <= st.low
    &&& 128 <= st.range <= 255
    &&& 8 <= st.len
    &&& st.low + st.range <= pow2(st.len as nat)
}

/// The data starts with the code of the bools.
pub open spec fn is_code_of(data: Seq<u8>, bools: Seq<(bool, u8)>) -> bool {
    let st = encoded_all(bools, bools.len());
    &&& st.len <= 8 * data.len()
    &&& bits_value(data, 0, st.len as nat) == st.low
}

/// The bools of a literal: its bits, each as likely as not.
pub open spec fn literal_bools(v: int, n: nat) -> Seq<(bool, u8)> {
    digits(v, n).map_values(|b: u8| (b == 1, 128u8))
}

proof fn lemma_split(range: int, p: u8)
    requires
        128 <= range <= 255,
    ensures
        1 <= split_at(range, p) < range,
{
    assert(0 <= (range - 1) * (p as int) <= (range - 1) * 255) by (nonlinear_arith)
        requires
            128 <= range <= 255,
            0 <= p <= 255,
    ;
}

/// Widening keeps the interval, in more bits.
proof fn lemma_widened(st: EncoderState)
    requires
        0 <= st.low,
        1 <= st.range <= 255,
        8 <= st.len,
        st.low + st.range <= pow2(st.len as nat),
    ensures
        encoder_valid(widened(st)),
        widened(st).len >= st.len,
        widened(st).low == st.low * pow2((widened(st).len - st.len) as nat),
        widened(st).range == st.range * pow2((widened(st).len - st.len) as nat),
    decreases 256 - st.range,
{
    lemma2_to64();
    if st.range < 128 {
        let next = EncoderState { low: 2 * st.low, range: 2 * st.range, len: st.len + 1 };
        lemma_pow2_unfold(next.len as nat);
        lemma_widened(next);
        let m = (widened(st).len - next.len) as nat;
        lemma_pow2_unfold((m + 1) as nat);
        let p = pow2(m) as int;
        let low = st.low;
        let range = st.range;
        assert(2 * low * p == low * (2 * p)) by (nonlinear_arith);
        assert(2 * range * p == range * (2 * p)) by (nonlinear_arith);
        assert((m + 1) as nat == (widened(st).len - st.len) as nat);
    } else {
        assert(st.low * 1 == st.low && st.range * 1 == st.range);
    }
}

proof fn lemma_encoded(st: EncoderState, bit: bool, p: u8)
    requires
        encoder_valid(st),
    ensures
        encoder_valid(encoded(st, bit, p)),
        encoded(st, bit, p).len >= st.len,
{
    lemma_split(st.range, p);
    lemma_widened(narrowed_to(st, bit, p));
}

proof fn lemma_encoded_all(bools: Seq<(bool, u8)>, k: nat)
    requires
        k <= bools.len(),
    ensures
        encoder_valid(encoded_all(bools, k)),
    decreases k,
{
    lemma2_to64();
    if k > 0 {
        lemma_encoded_all(bools, (k - 1) as nat);
        let st = encoded_all(bools, (k - 1) as nat);
        assert(encoder_valid(st));
        lemma_encoded(st, bools[k - 1].0, bools[k - 1].1);
    }
}

/// The code lies in the interval of a state: its first bits are at least `low`
/// and below `low + range`.
spec fn holds_code(data: Seq<u8>, st: EncoderState) -> bool {
    &&& 8 <= st.len <= 8 * data.len()
    &&& st.low <= bits_value(data, 0, st.len as nat) < st.low + st.range
}

/// A code that lies in a widened interval lies in the interval.
proof fn lemma_holds_before_widening(data: Seq<u8>, st: EncoderState)
    requires
        0 <= st.low,
        1 <= st.range <= 255,
        8 <= st.len,
        st.low + st.range <= pow2(st.len as nat),
        holds_code(data, widened(st)),
    ensures
        holds_code(data, st),
{
    lemma_widened(st);
    let w = widened(st);
    let m = (w.len - st.len) as nat;
    lemma_bits_value_concat(data, 0, st.len as nat, m);
    lemma_bits_value_range(data, st.len, m);
    lemma_pow2_pos(m);
    let t = bits_value(data, 0, st.len as nat);
    let rest = bits_value(data, st.len, m);
    let p = pow2(m) as int;
    let low = st.low;
    let range = st.range;
    assert(low <= t) by (nonlinear_arith)
        requires
            low * p <= t * p + rest,
            0 <= rest < p,
    ;
    assert(t < low + range) by (nonlinear_arith)
        requires
            t * p + rest < low * p + range * p,
            0 <= rest < p,
    ;
}

/// A code that lies in the part for a bool lies in the whole.
proof fn lemma_holds_before_bool(data: Seq<u8>, st: EncoderState, bit: bool, p: u8)
    requires
        encoder_valid(st),
        holds_code(data, encoded(st, bit, p)),
    ensures
        holds_code(data, narrowed_to(st, bit, p)),
        holds_code(data, st),
{
    lemma_split(st.range, p);
    lemma_holds_before_widening(data, narrowed_to(st, bit, p));
}

/// The code of all bools lies in the interval after each of them.
proof fn lemma_holds_all(data: Seq<u8>, bools: Seq<(bool, u8)>, k: nat)
    requires
        is_code_of(data, bools),
        k <= bools.len(),
    ensures
        holds_code(data, encoded_all(bools, k)),
    decreases bools.len() - k,
{
    lemma2_to64();
    lemma_encoded_all(bools, k);
    assert(encoder_valid(encoded_all(bools, k)));
    if k < bools.len() {
        lemma_holds_all(data, bools, k + 1);
        lemma_holds_before_bool(data, encoded_all(bools, k), bools[k as int].0, bools[k as int].1);
    }
}

/// The decoder state that goes with an encoder state.
pub open spec fn matching_state(data: Seq<u8>, st: EncoderState) -> BoolState {
    BoolState {
        pos: st.len,
        value: bits_value(data, 0, st.len as nat) - st.low,
        range: st.range,
        over: 0,
    }
}

/// The decoder takes in bits as the encoder widens its interval.
proof fn lemma_renormalized_matches(data: Seq<u8>, st: EncoderState)
    requires
        0 <= st.low,
        1 <= st.range <= 255,
        8 <= st.len,
        st.low + st.range <= pow2(st.len as nat),
        widened(st).len <= 8 * data.len(),
    ensures
        renormalized(data, matching_state(data, st)) == matching_state(data, widened(st)),
    decreases 256 - st.range,
{
    if st.range < 128 {
        let next = EncoderState { low: 2 * st.low, range: 2 * st.range, len: st.len + 1 };
        lemma_pow2_unfold(next.len as nat);
        lemma_widened(next);
        lemma_renormalized_matches(data, next);
        assert(bits_value(data, 0, next.len as nat) == 2 * bits_value(data, 0, st.len as nat)
            + bit_at(data, st.len)) by {
            assert((next.len - 1) as nat == st.len as nat);
        }
        assert(shift_in(data, matching_state(data, st)) == matching_state(data, next));
    }
}

/// The decoder state before the `k`-th bool of a list.
pub open spec fn decoder_before(data: Seq<u8>, bools: Seq<(bool, u8)>, k: nat) -> BoolState
    decreases k,
{
    if k == 0 {
        loaded_state(data)
    } else {
        after_bool(data, decoder_before(data, bools, (k - 1) as nat), bools[k - 1].1)
    }
}

proof fn lemma_first_byte(data: Seq<u8>)
    requires
        data.len() > 0,
    ensures
        bits_value(data, 0, 8) == data[0],
{
    let b = data[0];
    reveal_with_fuel(bits_value, 9);
    let b7 = (b >> 7u8) & 1u8;
    let b6 = (b >> 6u8) & 1u8;
    let b5 = (b >> 5u8) & 1u8;
    let b4 = (b >> 4u8) & 1u8;
    let b3 = (b >> 3u8) & 1u8;
    let b2 = (b >> 2u8) & 1u8;
    let b1 = (b >> 1u8) & 1u8;
    let b0 = (b >> 0u8) & 1u8;
    assert(b7 == (b / 128u8) % 2u8) by (bit_vector)
        requires
            b7 == (b >> 7u8) & 1u8,
    ;
    assert(b6 == (b / 64u8) % 2u8) by (bit_vector)
        requires
            b6 == (b >> 6u8) & 1u8,
    ;
    assert(b5 == (b / 32u8) % 2u8) by (bit_vector)
        requires
            b5 == (b >> 5u8) & 1u8,
    ;
    assert(b4 == (b / 16u8) % 2u8) by (bit_vector)
        requires
            b4 == (b >> 4u8) & 1u8,
    ;
    assert(b3 == (b / 8u8) % 2u8) by (bit_vector)
        requires
            b3 == (b >> 3u8) & 1u8,
    ;
    assert(b2 == (b / 4u8) % 2u8) by (bit_vector)
        requires
            b2 == (b >> 2u8) & 1u8,
    ;
    assert(b1 == (b / 2u8) % 2u8) by (bit_vector)
        requires
            b1 == (b >> 1u8) & 1u8,
    ;
    assert(b0 == b % 2u8) by (bit_vector)
        requires
            b0 == (b >> 0u8) & 1u8,
    ;
    assert(bit_at(data, 0) == b7 && bit_at(data, 1) == b6 && bit_at(data, 2) == b5 && bit_at(
        data,
        3,
    ) == b4 && bit_at(data, 4) == b3 && bit_at(data, 5) == b2 && bit_at(data, 6) == b1 && bit_at(
        data,
        7,
    ) == b0);
}

/// The decoder keeps step with the encoder.
proof fn lemma_decoder_matches(data: Seq<u8>, bools: Seq<(bool, u8)>, k: nat)
    requires
        is_code_of(data, bools),
        k <= bools.len(),
    ensures
        decoder_before(data, bools, k) == matching_state(data, encoded_all(bools, k)),
        k < bools.len() ==> decoded_bool(decoder_before(data, bools, k), bools[k as int].1)
            == bools[k as int].0,
    decreases k,
{
    lemma2_to64();
    lemma_holds_all(data, bools, k);
    if k == 0 {
        lemma_first_byte(data);
    } else {
        let j = (k - 1) as nat;
        lemma_decoder_matches(data, bools, j);
        lemma_encoded_all(bools, j);
        let st = encoded_all(bools, j);
        assert(encoder_valid(st));
        let (bit, p) = bools[j as int];
        lemma_split(st.range, p);
        lemma_renormalized_matches(data, narrowed_to(st, bit, p));
    }
    if k < bools.len() {
        lemma_holds_all(data, bools, k + 1);
        lemma_encoded_all(bools, k);
        let st = encoded_all(bools, k);
        assert(encoder_valid(st));
        lemma_holds_before_bool(data, st, bools[k as int].0, bools[k as int].1);
    }
}

/// The bools that were written are read back, each with the probability that it
/// was written with, and no bit beyond the code is looked at.
pub proof fn lemma_bools_read_back(data: Seq<u8>, bools: Seq<(bool, u8)>, k: nat)
    requires
        is_code_of(data, bools),
        k < bools.len(),
    ensures
        decoded_bool(decoder_before(data, bools, k), bools[k as int].1) == bools[k as int].0,
        decoder_before(data, bools, k).over == 0,
{
    lemma_decoder_matches(data, bools, k);
}

/// A literal that was written is read back.
pub proof fn lemma_literal_read_back(data: Seq<u8>, bools: Seq<(bool, u8)>, k: nat, v: int, n: nat)
    requires
        is_code_of(data, bools),
        k + n <= bools.len(),
        0 <= v < pow2(n),
        bools.subrange(k as int, (k + n) as int) == literal_bools(v, n),
    ensures
        decoded_literal(data, decoder_before(data, bools, k), n) == v,
        after_literal(data, decoder_before(data, bools, k), n) == decoder_before(
            data,
            bools,
            k + n,
        ),
{
    lemma_literal_prefix(data, bools, k, v, n, n);
    lemma_binary_digits(v, n);
    assert(digits(v, n).subrange(0, n as int) =~= digits(v, n));
}

proof fn lemma_literal_prefix(
    data: Seq<u8>,
    bools: Seq<(bool, u8)>,
    k: nat,
    v: int,
    n: nat,
    i: nat,
)
    requires
        is_code_of(data, bools),
        k + n <= bools.len(),
        i <= n,
        0 <= v < pow2(n),
        bools.subrange(k as int, (k + n) as int) == literal_bools(v, n),
    ensures
        decoded_literal(data, decoder_before(data, bools, k), i) == binary(
            digits(v, n).subrange(0, i as int),
        ),
        after_literal(data, decoder_before(data, bools, k), i) == decoder_before(
            data,
            bools,
            k + i,
        ),
    decreases i,
{
    if i > 0 {
        let j = (i - 1) as nat;
        lemma_literal_prefix(data, bools, k, v, n, j);
        lemma_bools_read_back(data, bools, k + j);
        lemma_binary_digits(v, n);
        let s = digits(v, n).subrange(0, i as int);
        assert(s.drop_last() =~= digits(v, n).subrange(0, j as int));
        assert(bools[(k + j) as int] == bools.subrange(k as int, (k + n) as int)[j as int]);
        assert(literal_bools(v, n)[j as int] == (digits(v, n)[j as int] == 1, 128u8));
        assert(digits(v, n)[j as int] <= 1);
        assert((k + i - 1) as nat == k + j);
    }
}

/// Changing one bit changes the number by its weight.
proof fn lemma_binary_update(s: Seq<u8>, j: int, b: u8)
    requires
        0 <= j < s.len(),
    ensures
        binary(s.update(j, b)) == binary(s) + (b - s[j]) * pow2((s.len() - 1 - j) as nat),
    decreases s.len(),
{
    lemma2_to64();
    let u = s.update(j, b);
    if j == s.len() - 1 {
        assert(u.drop_last() =~= s.drop_last());
        assert((b - s[j]) * 1 == b - s[j]);
    } else {
        lemma_binary_update(s.drop_last(), j, b);
        assert(u.drop_last() =~= s.drop_last().update(j, b));
        lemma_pow2_unfold((s.len() - 1 - j) as nat);
        let d = b - s[j];
        let p = pow2((s.len() - 2 - j) as nat) as int;
        assert(2 * (d * p) == d * (2 * p)) by (nonlinear_arith);
    }
}

proof fn lemma_binary_range(s: Seq<u8>)
    requires
        are_bits(s),
    ensures
        0 <= binary(s) < pow2(s.len()),
    decreases s.len(),
{
    lemma2_to64();
    if s.len() > 0 {
        lemma_binary_range(s.drop_last());
        lemma_pow2_unfold(s.len());
        assert(s[s.len() - 1] <= 1);
    }
}

/// Adds a small number to the number that bits stand for, which has room for it.
fn add_to_bits(bits: &mut Vec<u8>, amount: u32)
    requires
        are_bits(old(bits)@),
        amount <= 255,
        binary(old(bits)@) + amount < pow2(old(bits)@.len()),
    ensures
        are_bits(final(bits)@),
        final(bits)@.len() == old(bits)@.len(),
        binary(final(bits)@) == binary(old(bits)@) + amount,
{
    let n: usize = bits.len();
    let ghost target = binary(bits@) + amount;
    let mut carry: u32 = amount;
    let mut idx: usize = n;
    proof {
        lemma2_to64();
        assert(carry * 1 == carry);
    }
    while carry != 0
        invariant
            are_bits(bits@),
            bits.len() == n,
            idx <= n,
            carry <= 255,
            target < pow2(n as nat),
            binary(bits@) + carry * pow2((n - idx) as nat) == target,
        decreases idx,
    {
        proof {
            if idx == 0 {
                lemma_binary_range(bits@);
                assert(carry * pow2(n as nat) >= pow2(n as nat)) by (nonlinear_arith)
                    requires
                        carry >= 1,
                        pow2(n as nat) >= 0,
                ;
            }
        }
        let ghost before = bits@;
        let ghost old_carry = carry as int;
        let ghost p = pow2((n - idx) as nat) as int;
        idx = idx - 1;
        assert(bits[idx as int] <= 1);
        let sum: u32 = bits[idx] as u32 + carry % 2;
        bits[idx] = (sum % 2) as u8;
        carry = carry / 2 + sum / 2;
        proof {
            lemma_binary_update(before, idx as int, (sum % 2) as u8);
            assert((before.len() - 1 - idx) as nat == (n - idx - 1) as nat);
            lemma_pow2_unfold((n - idx) as nat);
            let d = (sum % 2) as int - before[idx as int];
            assert(d + 2 * carry == old_carry);
            assert(d * p + carry * (2 * p) == old_carry * p) by (nonlinear_arith)
                requires
                    d + 2 * carry == old_carry,
            ;
        }
    }
    assert(0 * pow2((n - idx) as nat) == 0);
}

/// Writes bools in the form that the bool decoder reads.
pub struct BoolEncoder {
    /// The lower end of the interval, bit by bit.
    pub low_bits: Vec<u8>,
    /// Its width.
    pub range: u32,
    /// The bools so far, the marker among them.
    pub written: Ghost<Seq<(bool, u8)>>,
}

impl BoolEncoder {
    /// The state of the encoder.
    pub open spec fn state(&self) -> EncoderState {
        EncoderState {
            low: binary(self.low_bits@),
            range: self.range as int,
            len: self.low_bits@.len() as int,
        }
    }

    /// The state is that after the bools that have been written.
    pub open spec fn wf(&self) -> bool {
        &&& are_bits(self.low_bits@)
        &&& encoder_valid(self.state())
        &&& self.state() == encoded_all(self.written@, self.written@.len())
    }

    /// An encoder that has written the marker.
    pub fn new() -> (e: Self)
        ensures
            e.wf(),
            e.written@ == seq![(false, 128u8)],
    {
        let mut e = BoolEncoder {
            low_bits: vec![0u8; 8],
            range: 255,
            written: Ghost(Seq::empty()),
        };
        proof {
            lemma2_to64();
            reveal_with_fuel(binary, 9);
            assert(e.state() == encoder_start());
        }
        e.write_bool(false, 128);
        assert(e.written@ =~= seq![(false, 128u8)]);
        e
    }

    /// Writes a bool with the given probability of `false`.
    pub fn write_bool(&mut self, bit: bool, p: u8)
        requires
            old(self).wf(),
        ensures
            final(self).wf(),
            final(self).written@ == old(self).written@.push((bit, p)),
    {
        let ghost start = self.state();
        let ghost target = encoded(start, bit, p);
        proof {
            lemma_split(start.range, p);
            lemma_encoded(start, bit, p);
            assert(0 <= (self.range - 1) * (p as int) <= 254 * 255) by (nonlinear_arith)
                requires
                    128 <= self.range <= 255,
                    0 <= p <= 255,
            ;
        }
        let split: u32 = 1 + ((self.range - 1) * p as u32) / 256;
        if bit {
            add_to_bits(&mut self.low_bits, split);
            self.range = self.range - split;
        } else {
            self.range = split;
        }
        assert(self.state() == narrowed_to(start, bit, p));
        while self.range < 128
            invariant
                are_bits(self.low_bits@),
                1 <= self.range <= 255,
                widened(self.state()) == target,
                self.written == old(self).written,
            decreases 256 - self.range,
        {
            let ghost before = self.low_bits@;
            self.low_bits.push(0);
            self.range = 2 * self.range;
            assert(self.low_bits@.drop_last() =~= before);
        }
        proof {
            let w = self.written@;
            self.written@ = w.push((bit, p));
            lemma_encoded_all_prefix(w, self.written@, w.len());
        }
    }

    /// Writes the low `n` bits of a value, most significant first, each as
    /// likely as not.
    pub fn write_literal(&mut self, value: u32, n: u32)
        requires
            old(self).wf(),
            n <= 32,
            value < pow2(n as nat),
        ensures
            final(self).wf(),
            final(self).written@ == old(self).written@ + literal_bools(value as int, n as nat),
    {
        let ghost before = self.written@;
        let ghost all = literal_bools(value as int, n as nat);
        for i in 0..n
            invariant
                n <= 32,
                self.wf(),
                all == literal_bools(value as int, n as nat),
                self.written@ == before + all.subrange(0, i as int),
        {
            let p: i64 = power_of_two(n - 1 - i);
            let bit: bool = (value as i64 / p) % 2 == 1;
            self.write_bool(bit, 128);
            proof {
                let d = digits(value as int, n as nat)[i as int];
                assert(d == ((value as int / (pow2((n - 1 - i) as nat) as int)) % 2) as u8);
                assert(all[i as int] == (d == 1, 128u8));
                assert(self.written@ =~= before + all.subrange(0, i + 1));
            }
        }
        assert(all.subrange(0, n as int) =~= all);
    }

    /// The code of all that was written, filled up with zeros.
    pub fn finish(self) -> (data: Vec<u8>)
        requires
            self.wf(),
        ensures
            is_code_of(data@, self.written@),
            8 * data@.len() < self.state().len + 8,
    {
        let ghost bits = self.low_bits@;
        let data: Vec<u8> = pack_bits(self.low_bits);
        proof {
            lemma_packed_value(bits, data@, 0, bits.len());
            assert(bits.subrange(0, bits.len() as int) =~= bits);
        }
        data
    }
}

proof fn lemma_encoded_all_prefix(a: Seq<(bool, u8)>, b: Seq<(bool, u8)>, k: nat)
    requires
        k <= a.len() <= b.len(),
        forall|i: int| 0 <= i < a.len() ==> #[trigger] a[i] == b[i],
    ensures
        encoded_all(a, k) == encoded_all(b, k),
    decreases k,
{
    if k > 0 {
        lemma_encoded_all_prefix(a, b, (k - 1) as nat);
        assert(a[k - 1] == b[k - 1]);
    }
}

impl Default for BitWriter {
    fn default() -> (w: Self)
        ensures
            w.wf(),
            w.bits@ == Seq::<u8>::empty(),
    {
        Self::new()
    }
}

impl Default for BoolEncoder {
    fn default() -> (e: Self)
        ensures
            e.wf(),
            e.written@ == seq![(false, 128u8)],
    {
        Self::new()
    }
}

} // verus!
