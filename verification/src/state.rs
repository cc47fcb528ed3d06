//! Bit-packed per-cell state: an unsigned scalar addressed through
//! `(position, length)` bit ranges.

use vstd::arithmetic::div_mod::lemma_small_mod;
use vstd::arithmetic::power2::{lemma2_to64, lemma2_to64_rest, pow2};
use vstd::bits::{
    lemma_low_bits_mask_values, lemma_u64_low_bits_mask_is_mod, lemma_u64_pow2_no_overflow,
    lemma_u64_shl_is_mul, low_bits_mask,
};
use vstd::prelude::*;

verus! {

/// A `(position, length)` pair addressing a contiguous span of bits within a
/// [`State`] scalar: the bits from `pos` up to (excluding) `pos + len`.
#[derive(Clone, Copy, PartialEq, Eq, Structural, Debug)]
pub struct BitRange {
    pub pos: u8,
    pub len: u8,
}

impl BitRange {
    /// The range lies within the 64 bits of a [`State`] scalar.
    pub open spec fn valid(self) -> bool {
        self.pos + self.len <= 64
    }
}

/// The mask with the low `len` bits set.
pub open spec fn mask_of(len: u64) -> u64
    recommends
        len <= 64,
{
    if len == 64 {
        u64::MAX
    } else {
        ((1u64 << len) - 1) as u64
    }
}

/// What [`State::get_from`] reads: the `range.len` bits of `state` starting
/// at bit `range.pos` (a zero-length range reads 0).
pub open spec fn bits_get(state: u64, range: BitRange) -> u64 {
    if range.len == 0 {
        0u64
    } else {
        (state >> (range.pos as u64)) & mask_of(range.len as u64)
    }
}

/// What [`State::set_to`] builds: `state` with the `range.len` bits starting
/// at bit `range.pos` replaced by the low `range.len` bits of `value` (a
/// zero-length range leaves `state` unchanged).
pub open spec fn bits_set(state: u64, range: BitRange, value: u64) -> u64 {
    if range.len == 0 {
        state
    } else {
        (state & !(mask_of(range.len as u64) << (range.pos as u64))) | ((value & mask_of(
            range.len as u64,
        )) << (range.pos as u64))
    }
}

/// The executable mask agrees with vstd's `low_bits_mask`.
proof fn lemma_mask_of_is_low_bits_mask(len: u64)
    requires
        len <= 64,
    ensures
        mask_of(len) == low_bits_mask(len as nat),
{
    if len == 64 {
        lemma_low_bits_mask_values();
    } else {
        lemma_u64_pow2_no_overflow(len as nat);
        lemma_u64_shl_is_mul(1u64, len);
    }
}

/// Represents a generic per-cell state stored as an unsigned scalar.
/// Values are extracted and inserted through bit ranges with `get` and
/// `set`; the same operations on a bare scalar are `get_from` and `set_to`.
#[derive(Clone, Copy, PartialEq, Eq, Structural, Debug)]
pub struct State {
    value: u64,
}

impl View for State {
    type V = u64;

    closed spec fn view(&self) -> u64 {
        self.value
    }
}

impl State {
    /// Creates a new `State` with every bit set to 0.
    pub fn new() -> (r: State)
        ensures
            r@ == 0u64,
    {
        State { value: 0 }
    }

    /// Creates a `State` holding the given scalar.
    pub fn from_value(value: u64) -> (r: State)
        ensures
            r@ == value,
    {
        State { value }
    }

    /// Returns the internal scalar.
    pub fn value(&self) -> (r: u64)
        ensures
            r == self@,
    {
        self.value
    }

    /// Extracts the bits of `state` between `range.pos` and
    /// `range.pos + range.len` (the latter excluded).
    pub fn get_from(state: u64, range: BitRange) -> (r: u64)
        requires
            range.valid(),
        ensures
            r == bits_get(state, range),
    {
        if range.len == 0 {
            return 0;
        }
        let pos = range.pos as u64;
        let len = range.len as u64;
        let mask: u64 = if len == 64 {
            u64::MAX
        } else {
            proof {
                assert(1u64 << len >= 1) by (bit_vector)
                    requires
                        len < 64,
                ;
            }
            (1u64 << len) - 1
        };
        (state >> pos) & mask
    }

    /// Returns `state` with the first `range.len` bits of `value` inserted
    /// between `range.pos` and `range.pos + range.len` (the latter excluded).
    pub fn set_to(state: u64, range: BitRange, value: u64) -> (r: u64)
        requires
            range.valid(),
        ensures
            r == bits_set(state, range, value),
    {
        if range.len == 0 {
            return state;
        }
        let pos = range.pos as u64;
        let len = range.len as u64;
        let mask: u64 = if len == 64 {
            u64::MAX
        } else {
            proof {
                assert(1u64 << len >= 1) by (bit_vector)
                    requires
                        len < 64,
                ;
            }
            (1u64 << len) - 1
        };
        let masked_value = value & mask;
        let lshifted_value = masked_value << pos;
        let excluded_value = state & !(mask << pos);
        excluded_value | lshifted_value
    }

    /// Extracts the bits of the stored scalar addressed by `range`.
    pub fn get(&self, range: BitRange) -> (r: u64)
        requires
            range.valid(),
        ensures
            r == bits_get(self@, range),
    {
        Self::get_from(self.value, range)
    }

    /// Inserts the first `range.len` bits of `value` into the stored scalar
    /// at the position addressed by `range`.
    pub fn set(&mut self, range: BitRange, value: u64)
        requires
            range.valid(),
        ensures
            final(self)@ == bits_set(old(self)@, range, value),
    {
        self.value = Self::set_to(self.value, range, value);
    }
}

/// Reading back a just-written bit range yields the written value reduced
/// modulo 2^len: for every `state`, in-range `range` and `value`,
/// `get_from(set_to(state, range, value), range) == value % pow2(range.len)`.
pub proof fn lemma_get_set_roundtrip(state: u64, range: BitRange, value: u64)
    requires
        range.valid(),
    ensures
        bits_get(bits_set(state, range, value), range) == value as nat % pow2(range.len as nat),
{
    let pos = range.pos as u64;
    let len = range.len as u64;
    if range.len == 0 {
        assert(pow2(0) == 1) by {
            lemma2_to64();
        };
        assert(value as nat % 1 == 0);
    } else if range.len == 64 {
        assert(pos == 0);
        assert((((state & !(0xffff_ffff_ffff_ffffu64 << 0)) | ((value & 0xffff_ffff_ffff_ffffu64)
            << 0)) >> 0) & 0xffff_ffff_ffff_ffffu64 == value) by (bit_vector);
        assert(value as nat % pow2(64) == value as nat) by {
            lemma2_to64_rest();
            lemma_small_mod(value as nat, pow2(64));
        };
    } else {
        assert((((state & !((((1u64 << len) - 1) as u64) << pos)) | ((value & (((1u64 << len)
            - 1) as u64)) << pos)) >> pos) & (((1u64 << len) - 1) as u64) == value & (((1u64 << len)
            - 1) as u64)) by (bit_vector)
            requires
                1 <= len < 64,
                pos + len <= 64,
        ;
        lemma_mask_of_is_low_bits_mask(len);
        lemma_u64_low_bits_mask_is_mod(value, len as nat);
        lemma_u64_pow2_no_overflow(len as nat);
        assert(value % (pow2(len as nat) as u64) == value as nat % pow2(len as nat));
    }
}

} // verus!
