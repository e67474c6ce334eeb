//! The bool decoder: the arithmetic decoder behind the compressed header and
//! the tile data.
//!
//! The decoder holds a `value` and a `range`. To decode one bool with
//! probability `p` (out of 256 that it is `false`) it splits the range at
//! `1 + (((range - 1) * p) >> 8)`, keeps the part that the value lies in, and
//! doubles the range, shifting raw bits into the value, until the range is at
//! least 128 again.

use vstd::arithmetic::power2::lemma2_to64;
use vstd::prelude::*;
use crate::bit_reader::{
    bit_at, bits_value, lemma_bit_at_range, lemma_bits_value_concat, lemma_bits_value_range,
    lemma_byte_is_its_bits,
};

verus! {

/// Errors that can occur when initializing the bool decoder.
#[derive(Debug, Clone, Copy, PartialEq, Eq, Structural)]
pub enum BoolCoderError {
    /// The buffer holds no byte to initialize from.
    EmptyBuffer,
    /// The marker bool read right after initialization is not `false`.
    InvalidMarker,
}

/// The abstract state of a bool decoder over some data.
pub struct BoolState {
    /// Position of the next raw bit.
    pub pos: int,
    /// The part of the code value that lies in the current range.
    pub value: int,
    /// The width of the current range.
    pub range: int,
    /// Raw bits requested past the end of the data, capped at `usize::MAX`.
    pub over: int,
}

/// Doubles the range once and shifts the next raw bit into the value.
pub open spec fn shift_in(data: Seq<u8>, st: BoolState) -> BoolState {
    let at_end = st.pos >= 8 * data.len();
    BoolState {
        pos: if at_end { st.pos } else { st.pos + 1 },
        value: 2 * st.value + bit_at(data, st.pos),
        range: 2 * st.range,
        over: if at_end && st.over < usize::MAX { st.over + 1 } else { st.over },
    }
}

/// Doubles the range until it is at least 128.
pub open spec fn renormalized(data: Seq<u8>, st: BoolState) -> BoolState
    decreases 256 - st.range,
{
    if st.range <= 0 || st.range >= 128 {
        st
    } else {
        renormalized(data, shift_in(data, st))
    }
}

/// Where probability `p` splits a range.
pub open spec fn split_at(range: int, p: u8) -> int {
    1 + ((range - 1) * (p as int)) / 256
}

/// The bool that the state decodes to with probability `p`.
pub open spec fn decoded_bool(st: BoolState, p: u8) -> bool {
    st.value >= split_at(st.range, p)
}

/// The state after decoding one bool with probability `p`.
pub open spec fn after_bool(data: Seq<u8>, st: BoolState, p: u8) -> BoolState {
    let split = split_at(st.range, p);
    let kept = if decoded_bool(st, p) {
        BoolState { range: st.range - split, value: st.value - split, ..st }
    } else {
        BoolState { range: split, ..st }
    };
    renormalized(data, kept)
}

/// The value of `n` bools decoded with probability one half, high bit first.
pub open spec fn decoded_literal(data: Seq<u8>, st: BoolState, n: nat) -> int
    decreases n,
{
    if n == 0 {
        0
    } else {
        let before = after_literal(data, st, (n - 1) as nat);
        2 * decoded_literal(data, st, (n - 1) as nat) + if decoded_bool(before, 128) {
            1int
        } else {
            0int
        }
    }
}

/// The state after decoding an `n`-bit literal.
pub open spec fn after_literal(data: Seq<u8>, st: BoolState, n: nat) -> BoolState
    decreases n,
{
    if n == 0 {
        st
    } else {
        after_bool(data, after_literal(data, st, (n - 1) as nat), 128)
    }
}

/// From node `n` of a tree array, every path reaches a leaf within `depth`
/// steps and stays inside the array. Leaves are the non-positive entries `-v`.
pub open spec fn tree_bounded(tree: Seq<i32>, n: int, depth: nat) -> bool
    decreases depth,
{
    depth > 0 && 0 <= n && n + 1 < tree.len() && forall|k: int|
        n <= k <= n + 1 ==> {
            &&& #[trigger] tree[k] > i32::MIN
            &&& tree[k] > 0 ==> tree_bounded(tree, tree[k] as int, (depth - 1) as nat)
        }
}

/// A tree array whose every walk from the root ends at a leaf.
pub open spec fn tree_valid(tree: Seq<i32>) -> bool {
    exists|depth: nat| tree_bounded(tree, 0, depth)
}

/// The child taken at node `n` of a tree, with `prob` giving the probability
/// of each node.
pub open spec fn tree_child(
    st: BoolState,
    tree: Seq<i32>,
    prob: spec_fn(usize) -> u8,
    n: int,
) -> i32 {
    tree[n + if decoded_bool(st, prob((n / 2) as usize)) { 1int } else { 0int }]
}

/// The value of the leaf that a walk from node `n` ends at.
pub open spec fn decoded_tree(
    data: Seq<u8>,
    st: BoolState,
    tree: Seq<i32>,
    prob: spec_fn(usize) -> u8,
    n: int,
    depth: nat,
) -> int
    decreases depth,
{
    let child = tree_child(st, tree, prob, n);
    if child <= 0 || depth == 0 {
        -child
    } else {
        decoded_tree(
            data,
            after_bool(data, st, prob((n / 2) as usize)),
            tree,
            prob,
            child as int,
            (depth - 1) as nat,
        )
    }
}

/// The state after a walk from node `n`.
pub open spec fn after_tree(
    data: Seq<u8>,
    st: BoolState,
    tree: Seq<i32>,
    prob: spec_fn(usize) -> u8,
    n: int,
    depth: nat,
) -> BoolState
    decreases depth,
{
    let child = tree_child(st, tree, prob, n);
    let next = after_bool(data, st, prob((n / 2) as usize));
    if child <= 0 || depth == 0 {
        next
    } else {
        after_tree(data, next, tree, prob, child as int, (depth - 1) as nat)
    }
}

/// The state right after loading the first byte, before the marker is read.
pub open spec fn loaded_state(data: Seq<u8>) -> BoolState {
    BoolState { pos: 8, value: data[0] as int, range: 255, over: 0 }
}

/// What holds of every decoder between calls.
pub open spec fn state_valid(data: Seq<u8>, st: BoolState) -> bool {
    &&& 8 * data.len() <= usize::MAX
    &&& 0 <= st.value < st.range
    &&& 128 <= st.range <= 255
    &&& 8 <= st.pos <= 8 * data.len()
    &&& 0 <= st.over <= usize::MAX
}

proof fn lemma_split_range(range: int, p: u8)
    requires
        128 <= range <= 255,
    ensures
        1 <= split_at(range, p) <= range - 1,
{
    assert(0 <= (range - 1) * (p as int) <= (range - 1) * 255) by (nonlinear_arith)
        requires
            128 <= range <= 255,
            0 <= p <= 255,
    ;
    assert((range - 1) * 255 < 256 * (range - 1));
}

proof fn lemma_renormalized_valid(data: Seq<u8>, st: BoolState)
    requires
        8 * data.len() <= usize::MAX,
        0 <= st.value < st.range <= 255,
        8 <= st.pos <= 8 * data.len(),
        0 <= st.over <= usize::MAX,
    ensures
        state_valid(data, renormalized(data, st)),
        renormalized(data, st).pos >= st.pos,
        renormalized(data, st).over >= st.over,
    decreases 256 - st.range,
{
    if st.range < 128 {
        lemma_bit_at_range(data, st.pos);
        lemma_renormalized_valid(data, shift_in(data, st));
    }
}

/// Decoding a bool keeps the state valid: the range stays in `128..=255`, the
/// value stays below it, and neither the position nor the over-read count ever
/// goes back.
pub proof fn lemma_after_bool_valid(data: Seq<u8>, st: BoolState, p: u8)
    requires
        state_valid(data, st),
    ensures
        state_valid(data, after_bool(data, st, p)),
        after_bool(data, st, p).pos >= st.pos,
        after_bool(data, st, p).over >= st.over,
{
    lemma_split_range(st.range, p);
    let split = split_at(st.range, p);
    let kept = if decoded_bool(st, p) {
        BoolState { range: st.range - split, value: st.value - split, ..st }
    } else {
        BoolState { range: split, ..st }
    };
    lemma_renormalized_valid(data, kept);
}

/// A literal of `n` bits is below `2^n` and leaves a valid state.
pub proof fn lemma_literal_range(data: Seq<u8>, st: BoolState, n: nat)
    requires
        state_valid(data, st),
    ensures
        0 <= decoded_literal(data, st, n) < vstd::arithmetic::power2::pow2(n),
        state_valid(data, after_literal(data, st, n)),
        after_literal(data, st, n).pos >= st.pos,
        after_literal(data, st, n).over >= st.over,
        n <= 8 ==> decoded_literal(data, st, n) <= 255,
        n <= 7 ==> decoded_literal(data, st, n) <= 127,
        n <= 5 ==> decoded_literal(data, st, n) <= 31,
        n <= 4 ==> decoded_literal(data, st, n) <= 15,
        n <= 3 ==> decoded_literal(data, st, n) <= 7,
        n <= 2 ==> decoded_literal(data, st, n) <= 3,
        n <= 1 ==> decoded_literal(data, st, n) <= 1,
        n <= 32 ==> decoded_literal(data, st, n) <= u32::MAX,
    decreases n,
{
    vstd::arithmetic::power2::lemma2_to64();
    if n > 0 {
        lemma_literal_range(data, st, (n - 1) as nat);
        lemma_after_bool_valid(data, after_literal(data, st, (n - 1) as nat), 128);
        vstd::arithmetic::power2::lemma_pow2_unfold(n);
    }
    if n < 32 {
        vstd::arithmetic::power2::lemma_pow2_strictly_increases(n, 32);
    }
    if n < 8 {
        vstd::arithmetic::power2::lemma_pow2_strictly_increases(n, 8);
    }
}

/// Two depths that both bound a tree give the same walk.
pub proof fn lemma_tree_depth(
    data: Seq<u8>,
    st: BoolState,
    tree: Seq<i32>,
    prob: spec_fn(usize) -> u8,
    n: int,
    d1: nat,
    d2: nat,
)
    requires
        tree_bounded(tree, n, d1),
        tree_bounded(tree, n, d2),
    ensures
        decoded_tree(data, st, tree, prob, n, d1) == decoded_tree(data, st, tree, prob, n, d2),
        after_tree(data, st, tree, prob, n, d1) == after_tree(data, st, tree, prob, n, d2),
    decreases d1,
{
    let child = tree_child(st, tree, prob, n);
    if child > 0 {
        lemma_tree_depth(
            data,
            after_bool(data, st, prob((n / 2) as usize)),
            tree,
            prob,
            child as int,
            (d1 - 1) as nat,
            (d2 - 1) as nat,
        );
    }
}

/// The arithmetic decoder.
#[derive(Debug)]
pub struct BoolDecoder<'a> {
    data: &'a [u8],
    /// Absolute position of the next raw bit to read. The first byte is
    /// consumed as the initial value, so the initial position is 8.
    bit_pos: usize,
    value: u32,
    range: u32,
    /// Count of raw bits requested past the end of `data` (each such request
    /// returns 0 and leaves `bit_pos` at the end). Intact data needs at most a
    /// handful of these at the very end; a desynchronized decode runs this up.
    over_read_bits: usize,
}

impl<'a> Clone for BoolDecoder<'a> {
    fn clone(&self) -> (r: Self)
        ensures
            r.bytes() == self.bytes(),
            r.state() == self.state(),
    {
        proof {
            use_type_invariant(self);
        }
        BoolDecoder {
            data: self.data,
            bit_pos: self.bit_pos,
            value: self.value,
            range: self.range,
            over_read_bits: self.over_read_bits,
        }
    }
}

impl<'a> BoolDecoder<'a> {
    /// The bytes that are decoded.
    pub closed spec fn bytes(self) -> Seq<u8> {
        self.data@
    }

    /// The abstract decoder state.
    pub closed spec fn state(self) -> BoolState {
        BoolState {
            pos: self.bit_pos as int,
            value: self.value as int,
            range: self.range as int,
            over: self.over_read_bits as int,
        }
    }

    /// Every decoder is in a valid state.
    #[verifier::type_invariant]
    pub open spec fn valid(self) -> bool {
        state_valid(self.bytes(), self.state())
    }

    /// Starts decoding `data`. Fails on empty data and where the marker bool is
    /// not `false`.
    pub fn new(data: &'a [u8]) -> (r: Result<Self, BoolCoderError>)
        requires
            8 * data.len() <= usize::MAX,
        ensures
            match r {
                Ok(d) => {
                    &&& data.len() > 0
                    &&& !decoded_bool(loaded_state(data@), 128)
                    &&& d.bytes() == data@
                    &&& d.state() == after_bool(data@, loaded_state(data@), 128)
                },
                Err(BoolCoderError::EmptyBuffer) => data.len() == 0,
                Err(BoolCoderError::InvalidMarker) => {
                    &&& data.len() > 0
                    &&& decoded_bool(loaded_state(data@), 128)
                },
            },
    {
        if data.len() == 0 {
            return Err(BoolCoderError::EmptyBuffer);
        }
        // With a range of 255 and an even chance the split is 128.
        if data[0] >= 128 {
            return Err(BoolCoderError::InvalidMarker);
        }
        let decoder = BoolDecoder {
            data,
            bit_pos: 8,
            value: data[0] as u32,
            range: 128,
            over_read_bits: 0,
        };
        proof {
            assert(renormalized(data@, decoder.state()) == decoder.state());
        }
        Ok(decoder)
    }

    /// Decodes one bool with probability `p` (out of 256) of being `false`.
    pub fn read_bool(&mut self, p: u8) -> (bit: bool)
        ensures
            bit == decoded_bool(old(self).state(), p),
            final(self).bytes() == old(self).bytes(),
            final(self).state() == after_bool(old(self).bytes(), old(self).state(), p),
    {
        proof {
            use_type_invariant(&*self);
            lemma_split_range(self.range as int, p);
            assert(0 <= (self.range - 1) * (p as int) <= 254 * 255) by (nonlinear_arith)
                requires
                    128 <= self.range <= 255,
                    0 <= p <= 255,
            ;
        }
        let data: &'a [u8] = self.data;
        let scaled: u32 = (self.range - 1) * (p as u32);
        proof {
            assert(scaled >> 8u32 == scaled / 256) by (bit_vector);
        }
        let split: u32 = 1 + (scaled >> 8);
        let bit: bool = self.value >= split;
        let mut range: u32 = if bit { self.range - split } else { split };
        let mut value: u32 = if bit { self.value - split } else { self.value };
        let mut bit_pos: usize = self.bit_pos;
        let mut over_read_bits: usize = self.over_read_bits;
        let total_bits: usize = data.len() * 8;
        let ghost kept = BoolState {
            pos: bit_pos as int,
            value: value as int,
            range: range as int,
            over: over_read_bits as int,
        };
        while range < 128
            invariant
                1 <= range <= 255,
                value < range,
                8 <= bit_pos <= total_bits,
                total_bits == 8 * data.len(),
                renormalized(data@, kept) == renormalized(
                    data@,
                    BoolState {
                        pos: bit_pos as int,
                        value: value as int,
                        range: range as int,
                        over: over_read_bits as int,
                    },
                ),
            decreases 256 - range,
        {
            let new_bit: u32 = if bit_pos >= total_bits {
                over_read_bits = over_read_bits.saturating_add(1);
                0
            } else {
                let byte: u8 = data[bit_pos / 8];
                let shift: u8 = 7 - (bit_pos % 8) as u8;
                bit_pos += 1;
                proof {
                    assert((byte >> shift) & 1u8 <= 1u8) by (bit_vector);
                }
                ((byte >> shift) & 1) as u32
            };
            range = 2 * range;
            value = 2 * value + new_bit;
        }
        *self = BoolDecoder { data, bit_pos, value, range, over_read_bits };
        bit
    }

    /// Reads `n` bools with an even chance each, high bit first.
    pub fn read_literal(&mut self, n: u32) -> (x: u32)
        requires
            n <= 32 || decoded_literal(old(self).bytes(), old(self).state(), n as nat) <= u32::MAX,
        ensures
            x == decoded_literal(old(self).bytes(), old(self).state(), n as nat),
            final(self).bytes() == old(self).bytes(),
            final(self).state() == after_literal(old(self).bytes(), old(self).state(), n as nat),
    {
        let ghost d = self.bytes();
        let ghost st = self.state();
        proof {
            use_type_invariant(&*self);
            lemma_literal_range(d, st, n as nat);
        }
        let mut x: u32 = 0;
        for i in 0..n
            invariant
                self.bytes() == d,
                state_valid(d, st),
                self.state() == after_literal(d, st, i as nat),
                x == decoded_literal(d, st, i as nat),
                decoded_literal(d, st, n as nat) <= u32::MAX,
        {
            proof {
                lemma_literal_monotone(d, st, (i + 1) as nat, n as nat);
            }
            let bit: bool = self.read_bool(128);
            x = 2 * x + bit as u32;
        }
        x
    }

    /// Reads a one-bit literal as a flag.
    pub fn flag(&mut self) -> (b: bool)
        ensures
            b == decoded_bool(old(self).state(), 128),
            final(self).bytes() == old(self).bytes(),
            final(self).state() == after_bool(old(self).bytes(), old(self).state(), 128),
    {
        proof {
            reveal_with_fuel(decoded_literal, 2);
            reveal_with_fuel(after_literal, 2);
        }
        self.read_literal(1) == 1
    }

    /// Decodes a tree-coded value. `tree` holds at each node the index of the
    /// next node or a leaf `-value`; `prob_of` gives the probability of a node
    /// (its index halved).
    pub fn read_tree<F>(&mut self, tree: &[i32], prob_of: F) -> (v: i32) where
        F: Fn(usize) -> u8,

        requires
            tree_valid(tree@),
            forall|node: usize| 2 * node + 1 < tree.len() ==> call_requires(prob_of, (node,)),
        ensures
            final(self).bytes() == old(self).bytes(),
            forall|prob: spec_fn(usize) -> u8, depth: nat|
                (forall|node: usize, p: u8| #[trigger]
                    call_ensures(prob_of, (node,), p) ==> p == prob(node)) && #[trigger]
                tree_bounded(tree@, 0, depth) ==> {
                    &&& v == #[trigger] decoded_tree(old(self).bytes(), old(self).state(), tree@, prob, 0, depth)
                    &&& final(self).state() == after_tree(
                        old(self).bytes(),
                        old(self).state(),
                        tree@,
                        prob,
                        0,
                        depth,
                    )
                },
    {
        let ghost d = self.bytes();
        let ghost st = self.state();
        let ghost top = choose|depth: nat| tree_bounded(tree@, 0, depth);
        let ghost mut left = top;
        let mut n: i32 = 0;
        loop
            invariant_except_break
                self.bytes() == d,
                tree_bounded(tree@, n as int, left),
                forall|node: usize| 2 * node + 1 < tree.len() ==> call_requires(prob_of, (node,)),
                forall|prob: spec_fn(usize) -> u8|
                    (forall|node: usize, p: u8| #[trigger]
                        call_ensures(prob_of, (node,), p) ==> p == prob(node)) ==> {
                        &&& #[trigger] decoded_tree(d, st, tree@, prob, 0, top) == decoded_tree(
                            d,
                            self.state(),
                            tree@,
                            prob,
                            n as int,
                            left,
                        )
                        &&& after_tree(d, st, tree@, prob, 0, top) == after_tree(
                            d,
                            self.state(),
                            tree@,
                            prob,
                            n as int,
                            left,
                        )
                    },
            ensures
                i32::MIN < n <= 0,
                self.bytes() == d,
                forall|prob: spec_fn(usize) -> u8|
                    (forall|node: usize, p: u8| #[trigger]
                        call_ensures(prob_of, (node,), p) ==> p == prob(node)) ==> {
                        &&& #[trigger] decoded_tree(d, st, tree@, prob, 0, top) == -n
                        &&& after_tree(d, st, tree@, prob, 0, top) == self.state()
                    },
            decreases left,
        {
            let ghost from = n as int;
            let ghost before = self.state();
            let node: usize = (n as usize) / 2;
            let p: u8 = prob_of(node);
            let bit: bool = self.read_bool(p);
            let step: usize = if bit { 1 } else { 0 };
            n = tree[n as usize + step];
            proof {
                let now = self.state();
                assert forall|prob: spec_fn(usize) -> u8|
                    (forall|node: usize, p: u8| #[trigger]
                        call_ensures(prob_of, (node,), p) ==> p == prob(node)) implies {
                    &&& #[trigger] decoded_tree(d, before, tree@, prob, from, left) == if n <= 0 {
                        -n as int
                    } else {
                        decoded_tree(d, now, tree@, prob, n as int, (left - 1) as nat)
                    }
                    &&& after_tree(d, before, tree@, prob, from, left) == if n <= 0 {
                        now
                    } else {
                        after_tree(d, now, tree@, prob, n as int, (left - 1) as nat)
                    }
                } by {
                    assert(call_ensures(prob_of, (node,), p));
                    assert(p == prob(node));
                }
            }
            if n <= 0 {
                break;
            }
            proof {
                left = (left - 1) as nat;
            }
        }
        proof {
            assert forall|prob: spec_fn(usize) -> u8, depth: nat|
                (forall|node: usize, p: u8| #[trigger]
                    call_ensures(prob_of, (node,), p) ==> p == prob(node)) && #[trigger]
                tree_bounded(tree@, 0, depth) implies {
                &&& -n == #[trigger] decoded_tree(d, st, tree@, prob, 0, depth)
                &&& self.state() == after_tree(d, st, tree@, prob, 0, depth)
            } by {
                lemma_tree_depth(d, st, tree@, prob, 0, top, depth);
            }
        }
        -n
    }

    /// Number of raw bits requested past the end of the data. Intact data ends
    /// with only a few of these; a large value means the data was corrupt.
    pub fn over_read_bits(&self) -> (n: usize)
        ensures
            n == self.state().over,
    {
        self.over_read_bits
    }

    /// Absolute raw-bit position; it stays at the end of the data once the end
    /// is reached.
    pub fn bit_position(&self) -> (n: usize)
        ensures
            n == self.state().pos,
    {
        self.bit_pos
    }

    /// Discards the remaining padding bits: the position moves to the end of
    /// the data.
    pub fn exit_bool(&mut self)
        ensures
            final(self).bytes() == old(self).bytes(),
            final(self).state() == (BoolState {
                pos: 8 * (old(self).bytes().len() as int),
                ..old(self).state()
            }),
    {
        proof {
            use_type_invariant(&*self);
        }
        let data: &'a [u8] = self.data;
        *self =
        BoolDecoder {
            data,
            bit_pos: data.len() * 8,
            value: self.value,
            range: self.range,
            over_read_bits: self.over_read_bits,
        };
    }
}

proof fn lemma_literal_monotone(data: Seq<u8>, st: BoolState, k: nat, n: nat)
    requires
        k <= n,
        state_valid(data, st),
    ensures
        0 <= decoded_literal(data, st, k) <= decoded_literal(data, st, n),
    decreases n - k,
{
    lemma_literal_range(data, st, k);
    if k < n {
        lemma_literal_monotone(data, st, k, (n - 1) as nat);
    }
}

/// The first of seven bits, and the value of the other six.
proof fn lemma_seven_bits(data: Seq<u8>, pos: int)
    ensures
        bits_value(data, pos, 7) == 64 * bit_at(data, pos) + bits_value(data, pos + 1, 6),
        0 <= bits_value(data, pos + 1, 6) < 64,
        0 <= bit_at(data, pos) <= 1,
{
    lemma2_to64();
    lemma_bits_value_concat(data, pos, 1, 6);
    lemma_bits_value_range(data, pos + 1, 6);
    lemma_bit_at_range(data, pos);
    reveal_with_fuel(bits_value, 2);
}

/// The state `n` even bools after the marker: the next seven raw bits are
/// loaded.
proof fn lemma_even_bools(data: Seq<u8>, n: nat)
    requires
        data.len() > 0,
        data[0] < 128,
    ensures
        ({
            let st = after_literal(data, after_bool(data, loaded_state(data), 128), n);
            &&& st.range == 128
            &&& st.value == bits_value(data, n as int + 1, 7)
            &&& st.pos == if 8 + n < 8 * data.len() {
                8 + n as int
            } else {
                8 * data.len() as int
            }
        }),
    decreases n,
{
    let first = after_bool(data, loaded_state(data), 128);
    reveal_with_fuel(renormalized, 2);
    if n == 0 {
        lemma2_to64();
        lemma_byte_is_its_bits(data, 0);
        lemma_bits_value_concat(data, 0, 1, 7);
        lemma_bits_value_range(data, 1, 7);
        lemma_bit_at_range(data, 0);
        reveal_with_fuel(bits_value, 2);
        assert(split_at(255, 128) == 128);
    } else {
        let k = (n - 1) as nat;
        lemma_even_bools(data, k);
        lemma_seven_bits(data, n as int);
        let st = after_literal(data, first, k);
        assert(split_at(128, 128) == 64);
        let at = n as int + 1;
        assert(bit_at(data, st.pos) == bit_at(data, at + 6));
        assert(bits_value(data, at, 7) == 2 * bits_value(data, at, 6) + bit_at(data, at + 6));
    }
}

/// Straight after the marker a literal is the raw bits that follow it: bools with
/// an even chance are coded as they stand.
pub proof fn lemma_literal_after_marker_is_raw(data: Seq<u8>, n: nat)
    requires
        data.len() > 0,
        data[0] < 128,
    ensures
        !decoded_bool(loaded_state(data), 128),
        decoded_literal(data, after_bool(data, loaded_state(data), 128), n) == bits_value(
            data,
            1,
            n,
        ),
    decreases n,
{
    assert(split_at(255, 128) == 128);
    if n > 0 {
        let k = (n - 1) as nat;
        lemma_literal_after_marker_is_raw(data, k);
        lemma_even_bools(data, k);
        lemma_seven_bits(data, n as int);
        assert(split_at(128, 128) == 64);
    }
}

/// A 0 takes the part `p` of 256 of a range, rounded down, and at least one; a 1
/// takes the rest. A value below the split is a 0 and stays; one from it on is a 1
/// and is counted from it.
pub proof fn lemma_bool_splits_range(data: Seq<u8>, st: BoolState, p: u8)
    requires
        128 <= st.range <= 255,
        0 <= st.value < st.range,
    ensures
        ({
            let zero = split_at(st.range, p);
            &&& 256 * (zero - 1) <= (st.range - 1) * p < 256 * zero
            &&& decoded_bool(st, p) == (st.value >= zero)
            &&& after_bool(data, st, p) == renormalized(
                data,
                if st.value < zero {
                    BoolState { range: zero, ..st }
                } else {
                    BoolState { range: st.range - zero, value: st.value - zero, ..st }
                },
            )
        }),
{
}

/// A range is doubled until it has 128 parts, and with every doubling the next raw
/// bit joins the value; past the end of the data zeros do, and are counted.
pub proof fn lemma_renormalizing(data: Seq<u8>, st: BoolState)
    requires
        1 <= st.range <= 255,
    ensures
        ({
            let r = renormalized(data, st);
            let next = BoolState {
                range: 2 * st.range,
                value: 2 * st.value + bit_at(data, st.pos),
                pos: if st.pos < 8 * data.len() {
                    st.pos + 1
                } else {
                    st.pos
                },
                over: if st.pos < 8 * data.len() || st.over >= usize::MAX {
                    st.over
                } else {
                    st.over + 1
                },
            };
            &&& st.range >= 128 ==> r == st
            &&& st.range < 128 ==> r == renormalized(data, next)
            &&& 128 <= r.range <= 255
        }),
    decreases 256 - st.range,
{
    if st.range < 128 {
        lemma_renormalizing(data, shift_in(data, st));
    }
}

/// A decoder starts with the first byte as its value and a full range.
pub proof fn lemma_decoder_start(data: Seq<u8>)
    requires
        data.len() > 0,
    ensures
        loaded_state(data).value == data[0],
        loaded_state(data).range == 255,
        loaded_state(data).pos == 8,
        loaded_state(data).over == 0,
        decoded_bool(loaded_state(data), 128) == (data[0] >= 128),
{
}

} // verus!
