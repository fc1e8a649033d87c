//! The bounded bit accumulator.
//!
//! A [`BitQueue`] buffers up to `width` (at most 64) bits in a single
//! integer register. Bits enter at the tail and leave at the head; how the
//! register encodes the queue depends on the bit order `E`. Its abstract
//! view (`@`) is the queued bit sequence, head first.

use vstd::prelude::*;

use crate::Endianness;
use crate::bitseq::lemma_bytes_bits_len;
use crate::bitseq::lemma_lsb_bits_concat;
use crate::bitseq::lemma_msb_bits_concat;
use crate::bitseq::lemma_stack_bound;
use crate::bitseq::lemma_stream_bits_len;
use crate::bitseq::lemma_stream_bits_ones;
use crate::bitseq::lemma_stream_bits_zero;
use crate::bitseq::lemma_stream_bits_injective;
use crate::bitseq::lemma_stream_val_of_bits;
use crate::bitseq::msb_bits;
use crate::bitseq::lsb_bits;
use crate::bitseq::stream_bits;
use crate::bitseq::stream_val;
use std::marker::PhantomData;

verus! {

broadcast use lemma_stream_bits_len, lemma_bytes_bits_len;

use vstd::arithmetic::power2::pow2;
use vstd::arithmetic::power2::lemma_pow2_adds;
use vstd::arithmetic::power2::lemma_pow2_pos;
use vstd::arithmetic::power2::lemma2_to64;
use vstd::arithmetic::power2::lemma2_to64_rest;
use vstd::arithmetic::div_mod::lemma_fundamental_div_mod;
use vstd::arithmetic::div_mod::lemma_multiply_divide_lt;
use vstd::arithmetic::div_mod::lemma_small_mod;
use vstd::bits::lemma_u64_shl_is_mul;
use vstd::bits::lemma_u64_shr_is_div;
use vstd::bits::lemma_u64_pow2_no_overflow;

/// `2^n` as a `u64`, for `n <= 64`, with its arithmetic meaning attached.
pub(crate) proof fn lemma_u64_shl1(n: u32)
    requires
        n < 64,
    ensures
        (1u64 << n) == pow2(n as nat),
        (1u64 << n) > 0,
{
    lemma_u64_pow2_no_overflow(n as nat);
    lemma_u64_shl_is_mul(1u64, n as u64);
}

/// Or-ing a value below `2^n` into a register whose low `n` bits are clear
/// is the same as adding it.
proof fn lemma_shl_or_is_add(x: u64, y: u64, n: u32)
    requires
        n < 64,
        (x as nat) * pow2(n as nat) <= u64::MAX,
        (y as nat) < pow2(n as nat),
    ensures
        ((x << n) | y) == (x as nat) * pow2(n as nat) + y,
        (y | (x << n)) == (x as nat) * pow2(n as nat) + y,
{
    lemma_u64_shl1(n);
    lemma_u64_shl_is_mul(x, n as u64);
    assert(((x << n) | y) == (x << n) + y && (y | (x << n)) == (x << n) + y) by (bit_vector)
        requires
            n < 64u32 && y < (1u64 << n),
    ;
}

/// A queue of up to `width` bits packed in a 64-bit register, in bit order `E`.
pub struct BitQueue<E: Endianness> {
    /// The packed bits; only the low `bits` bits are ever set.
    pub value: u64,
    /// How many bits are queued.
    pub bits: u32,
    /// The capacity in bits, at most 64.
    pub width: u32,
    /// The bit-order marker.
    pub order: PhantomData<E>,
}

impl<E: Endianness> Clone for BitQueue<E> {
    fn clone(&self) -> (r: Self)
        ensures
            r == *self,
    {
        BitQueue { value: self.value, bits: self.bits, width: self.width, order: PhantomData }
    }
}

impl<E: Endianness> View for BitQueue<E> {
    type V = Seq<bool>;

    open spec fn view(&self) -> Seq<bool> {
        stream_bits(E::msb_first(), self.value as nat, self.bits as nat)
    }
}

impl<E: Endianness> BitQueue<E> {
    /// The queue's invariant: the register holds at most `width <= 64` bits
    /// and nothing above the queued bits.
    pub open spec fn wf(self) -> bool {
        self.bits <= self.width <= 64 && (self.value as nat) < pow2(self.bits as nat)
    }

    /// A new empty queue able to hold `width` bits.
    pub fn new(width: u32) -> (r: Self)
        requires
            width <= 64,
        ensures
            r.wf(),
            r@ == Seq::<bool>::empty(),
            r.width == width,
    {
        proof {
            lemma_pow2_pos(0nat);
        }
        BitQueue { value: 0, bits: 0, width, order: PhantomData }
    }

    /// A queue holding the low `bits` bits of `value`, in a register of
    /// capacity `width`.
    pub fn from_value(width: u32, value: u64, bits: u32) -> (r: Self)
        requires
            bits <= width <= 64,
            (value as nat) < pow2(bits as nat),
        ensures
            r.wf(),
            r@ == stream_bits(E::msb_first(), value as nat, bits as nat),
            r.width == width,
    {
        BitQueue { value, bits, width, order: PhantomData }
    }

    /// Overwrites the queue with the low `bits` bits of `value`.
    pub fn set(&mut self, value: u64, bits: u32)
        requires
            old(self).wf(),
            bits <= old(self).width,
            (value as nat) < pow2(bits as nat),
        ensures
            final(self).wf(),
            final(self).width == old(self).width,
            final(self)@ == stream_bits(E::msb_first(), value as nat, bits as nat),
    {
        self.value = value;
        self.bits = bits;
    }

    /// The queued bit count.
    pub fn len(&self) -> (r: u32)
        ensures
            r == self.bits,
            r as nat == self@.len(),
    {
        self.bits
    }

    /// The capacity in bits.
    pub fn max_len(&self) -> (r: u32)
        ensures
            r == self.width,
    {
        self.width
    }

    /// How many more bits the queue can take.
    pub fn remaining_len(&self) -> (r: u32)
        requires
            self.wf(),
        ensures
            r == self.width - self.bits,
    {
        self.width - self.bits
    }

    /// True if nothing is queued.
    pub fn is_empty(&self) -> (r: bool)
        ensures
            r == (self@.len() == 0),
    {
        self.bits == 0
    }

    /// True if the queue is at capacity.
    pub fn is_full(&self) -> (r: bool)
        ensures
            r == (self@.len() == self.width),
    {
        self.bits == self.width
    }

    /// Empties the queue.
    pub fn clear(&mut self)
        requires
            old(self).wf(),
        ensures
            final(self).wf(),
            final(self).width == old(self).width,
            final(self)@ == Seq::<bool>::empty(),
    {
        proof {
            lemma_pow2_pos(0nat);
        }
        self.value = 0;
        self.bits = 0;
    }

    /// The queued bits as a value, interpreted in this bit order.
    pub fn value(self) -> (r: u64)
        requires
            self.wf(),
        ensures
            r as nat == stream_val(E::msb_first(), self@),
            (r as nat) < pow2(self@.len()),
    {
        proof {
            lemma_stream_val_of_bits(E::msb_first(), self.value as nat, self.bits as nat);
            lemma_small_mod(self.value as nat, pow2(self.bits as nat));
        }
        self.value
    }

    /// True if every queued bit is 0.
    pub fn all_0(&self) -> (r: bool)
        requires
            self.wf(),
        ensures
            r == (self@ == Seq::new(self@.len(), |i: int| false)),
    {
        proof {
            lemma_stream_bits_zero(E::msb_first(), self.bits as nat);
            if self.value != 0 {
                if self@ == Seq::new(self@.len(), |i: int| false) {
                    lemma_pow2_pos(self.bits as nat);
                    lemma_stream_bits_injective(
                        E::msb_first(),
                        self.value as nat,
                        0,
                        self.bits as nat,
                    );
                }
            }
        }
        self.value == 0
    }

    /// True if every queued bit is 1.
    pub fn all_1(&self) -> (r: bool)
        requires
            self.wf(),
        ensures
            r == (self@ == Seq::new(self@.len(), |i: int| true)),
    {
        let ones: u64 = if self.bits == 64 {
            proof {
                lemma2_to64_rest();
            }
            u64::MAX
        } else {
            proof {
                lemma_u64_shl1(self.bits);
            }
            (1u64 << self.bits) - 1
        };
        proof {
            lemma_stream_bits_ones(E::msb_first(), self.bits as nat);
            if self.value != ones {
                if self@ == Seq::new(self@.len(), |i: int| true) {
                    lemma_pow2_pos(self.bits as nat);
                    lemma_stream_bits_injective(
                        E::msb_first(),
                        self.value as nat,
                        (pow2(self.bits as nat) - 1) as nat,
                        self.bits as nat,
                    );
                }
            }
        }
        self.value == ones
    }

    /// Appends the low `bits` bits of `value` to the tail of the queue.
    pub fn push(&mut self, bits: u32, value: u64)
        requires
            old(self).wf(),
            bits <= old(self).width - old(self).bits,
            (value as nat) < pow2(bits as nat),
        ensures
            final(self).wf(),
            final(self).width == old(self).width,
            final(self)@ == old(self)@ + stream_bits(E::msb_first(), value as nat, bits as nat),
    {
        proof {
            lemma_pow2_pos(old(self).bits as nat);
            lemma_pow2_pos(bits as nat);
            lemma_pow2_adds(old(self).bits as nat, bits as nat);
            lemma_stack_bound(
                old(self).value as nat,
                value as nat,
                old(self).bits as nat,
                bits as nat,
            );
            lemma_stack_bound(value as nat, old(self).value as nat, bits as nat, old(self).bits as nat);
            crate::bitseq::lemma_pow2_le((old(self).bits + bits) as nat, 64);
            crate::bitseq::lemma_pow2_le((bits + old(self).bits) as nat, 64);
            lemma2_to64_rest();
        }
        if E::is_msb_first() {
            if self.value != 0 {
                // a nonzero register means at least one queued bit, so the
                // shift distance stays below 64
                proof {
                    if self.bits == 0 {
                        assert(pow2(0) == 1) by {
                            lemma2_to64();
                        }
                    }
                    lemma_shl_or_is_add(self.value, value, bits);
                }
                self.value = (self.value << bits) | value;
            } else {
                self.value = value;
            }
            proof {
                assert(self.value as nat == old(self).value as nat * pow2(bits as nat)
                    + value as nat) by {
                    if old(self).value == 0 {
                    }
                }
                lemma_msb_bits_concat(
                    old(self).value as nat,
                    value as nat,
                    old(self).bits as nat,
                    bits as nat,
                );
            }
        } else {
            if value != 0 {
                proof {
                    if bits == 0 {
                        assert(pow2(0) == 1) by {
                            lemma2_to64();
                        }
                    }
                    lemma_shl_or_is_add(value, old(self).value, self.bits);
                }
                self.value = self.value | (value << self.bits);
            }
            proof {
                assert(self.value as nat == old(self).value as nat + value as nat * pow2(
                    old(self).bits as nat,
                ));
                lemma_lsb_bits_concat(
                    old(self).value as nat,
                    value as nat,
                    old(self).bits as nat,
                    bits as nat,
                );
            }
        }
        self.bits = self.bits + bits;
    }

    /// Removes the first `bits` bits from the head of the queue and returns
    /// their value.
    pub fn pop(&mut self, bits: u32) -> (r: u64)
        requires
            old(self).wf(),
            bits <= old(self).bits,
        ensures
            final(self).wf(),
            final(self).width == old(self).width,
            (r as nat) < pow2(bits as nat),
            stream_bits(E::msb_first(), r as nat, bits as nat) == old(self)@.take(bits as int),
            r as nat == stream_val(E::msb_first(), old(self)@.take(bits as int)),
            final(self)@ == old(self)@.skip(bits as int),
    {
        let ghost m = E::msb_first();
        let ghost whole = old(self)@;
        let r: u64;
        if bits == 0 {
            proof {
                lemma_pow2_pos(0nat);
                assert(whole.take(0) =~= Seq::<bool>::empty());
                assert(whole.skip(0) =~= whole);
            }
            r = 0;
        } else if bits == self.bits {
            r = self.value;
            self.value = 0;
            self.bits = 0;
            proof {
                lemma_pow2_pos(0nat);
                assert(whole.take(bits as int) =~= whole);
                assert(whole.skip(bits as int) =~= Seq::<bool>::empty());
            }
        } else {
            // 1 <= bits < self.bits <= 64
            let ghost v = self.value as nat;
            let ghost hi: nat;
            let ghost lo: nat;
            let ghost hiw: nat;
            let ghost low: nat;
            if E::is_msb_first() {
                let offset = self.bits - bits;
                proof {
                    lemma_u64_shl1(offset);
                    lemma_u64_shr_is_div(self.value, offset as u64);
                    lemma_pow2_pos(offset as nat);
                    lemma_pow2_adds(bits as nat, offset as nat);
                    lemma_pow2_adds(offset as nat, bits as nat);
                    lemma_multiply_divide_lt(v as int, pow2(offset as nat) as int, pow2(
                        bits as nat,
                    ) as int);
                }
                r = self.value >> offset;
                self.value = self.value % (1u64 << offset);
                proof {
                    hi = r as nat;
                    lo = self.value as nat;
                    hiw = bits as nat;
                    low = offset as nat;
                    lemma_fundamental_div_mod(v as int, pow2(offset as nat) as int);
                    vstd::arithmetic::div_mod::lemma_mod_division_less_than_divisor(
                        v as int,
                        pow2(offset as nat) as int,
                    );
                    lemma_msb_bits_concat(hi, lo, hiw, low);
                    assert(v == pow2(low) * hi + lo);
                    assert(pow2(low) * hi == hi * pow2(low)) by (nonlinear_arith);
                    assert(hiw + low == old(self).bits as nat);
                    assert(msb_bits(v, old(self).bits as nat) == msb_bits(hi, hiw) + msb_bits(
                        lo,
                        low,
                    ));
                }
            } else {
                proof {
                    lemma_u64_shl1(bits);
                    lemma_u64_shr_is_div(self.value, bits as u64);
                    lemma_pow2_pos(bits as nat);
                    lemma_pow2_adds(bits as nat, (self.bits - bits) as nat);
                    lemma_pow2_adds((self.bits - bits) as nat, bits as nat);
                    lemma_multiply_divide_lt(
                        v as int,
                        pow2(bits as nat) as int,
                        pow2((self.bits - bits) as nat) as int,
                    );
                }
                r = self.value % (1u64 << bits);
                self.value = self.value >> bits;
                proof {
                    hi = r as nat;
                    lo = self.value as nat;
                    hiw = bits as nat;
                    low = (old(self).bits - bits) as nat;
                    lemma_fundamental_div_mod(v as int, pow2(bits as nat) as int);
                    vstd::arithmetic::div_mod::lemma_mod_division_less_than_divisor(
                        v as int,
                        pow2(bits as nat) as int,
                    );
                    lemma_lsb_bits_concat(hi, lo, hiw, low);
                    assert(lsb_bits(v, old(self).bits as nat) == lsb_bits(hi, hiw) + lsb_bits(
                        lo,
                        low,
                    ));
                }
            }
            self.bits = self.bits - bits;
            proof {
                assert(whole == stream_bits(m, hi, hiw) + stream_bits(m, lo, low));
                assert(whole.take(bits as int) =~= stream_bits(m, hi, hiw));
                assert(whole.skip(bits as int) =~= stream_bits(m, lo, low));
            }
        }
        proof {
            lemma_pow2_pos(bits as nat);
            assert((r as nat) < pow2(bits as nat));
            assert(self.wf());
            lemma_stream_val_of_bits(m, r as nat, bits as nat);
            lemma_small_mod(r as nat, pow2(bits as nat));
        }
        r
    }

    /// Drains the whole queue and returns the value of everything it held.
    pub fn pop_all(&mut self) -> (r: u64)
        requires
            old(self).wf(),
        ensures
            final(self).wf(),
            final(self).width == old(self).width,
            (r as nat) < pow2(old(self)@.len()),
            stream_bits(E::msb_first(), r as nat, old(self)@.len()) == old(self)@,
            r as nat == stream_val(E::msb_first(), old(self)@),
            final(self)@ == Seq::<bool>::empty(),
    {
        let bits = self.bits;
        let r = self.pop(bits);
        proof {
            assert(old(self)@.take(bits as int) =~= old(self)@);
            assert(old(self)@.skip(bits as int) =~= Seq::<bool>::empty());
        }
        r
    }

    /// Removes the first `bits` bits without returning them.
    pub fn drop(&mut self, bits: u32)
        requires
            old(self).wf(),
            bits <= old(self).bits,
        ensures
            final(self).wf(),
            final(self).width == old(self).width,
            final(self)@ == old(self)@.skip(bits as int),
    {
        let _ = self.pop(bits);
    }

    /// Pops the leading run of 0 bits together with the 1 bit that ends it,
    /// and returns the length of the run.
    pub fn pop_0(&mut self) -> (r: u32)
        requires
            old(self).wf(),
            exists|i: int| 0 <= i < old(self)@.len() && old(self)@[i],
        ensures
            final(self).wf(),
            final(self).width == old(self).width,
            r < old(self)@.len(),
            forall|i: int| 0 <= i < r ==> !old(self)@[i],
            old(self)@[r as int],
            final(self)@ == old(self)@.skip(r as int + 1),
    {
        let ghost whole = old(self)@;
        let mut count: u32 = 0;
        loop
            invariant_except_break
                self@ == whole.skip(count as int),
            invariant
                self.wf(),
                self.width == old(self).width,
                whole.len() <= 64,
                count as nat <= whole.len(),
                forall|i: int| 0 <= i < count ==> !whole[i],
                exists|i: int| count <= i < whole.len() && whole[i],
            ensures
                self.wf(),
                self.width == old(self).width,
                count < whole.len(),
                forall|i: int| 0 <= i < count ==> !whole[i],
                whole[count as int],
                self@ == whole.skip(count as int + 1),
            decreases whole.len() - count,
        {
            proof {
                assert(self@.len() > 0);
                assert(self@.take(1) =~= seq![whole[count as int]]);
            }
            let b = self.pop(1);
            proof {
                crate::bitseq::lemma_stream_bits_single(E::msb_first(), b as nat);
                assert(whole[count as int] == (b as nat % 2 == 1));
                assert(b < 2) by {
                    lemma2_to64();
                }
                assert(whole.skip(count as int).skip(1) =~= whole.skip(count as int + 1));
            }
            if b == 1 {
                break ;
            }
            proof {
                assert(!whole[count as int]);
            }
            count = count + 1;
        }
        count
    }

    /// Pops the leading run of 1 bits together with the 0 bit that ends it,
    /// and returns the length of the run.
    pub fn pop_1(&mut self) -> (r: u32)
        requires
            old(self).wf(),
            exists|i: int| 0 <= i < old(self)@.len() && !old(self)@[i],
        ensures
            final(self).wf(),
            final(self).width == old(self).width,
            r < old(self)@.len(),
            forall|i: int| 0 <= i < r ==> old(self)@[i],
            !old(self)@[r as int],
            final(self)@ == old(self)@.skip(r as int + 1),
    {
        let ghost whole = old(self)@;
        let mut count: u32 = 0;
        loop
            invariant_except_break
                self@ == whole.skip(count as int),
            invariant
                self.wf(),
                self.width == old(self).width,
                whole.len() <= 64,
                count as nat <= whole.len(),
                forall|i: int| 0 <= i < count ==> whole[i],
                exists|i: int| count <= i < whole.len() && !whole[i],
            ensures
                self.wf(),
                self.width == old(self).width,
                count < whole.len(),
                forall|i: int| 0 <= i < count ==> whole[i],
                !whole[count as int],
                self@ == whole.skip(count as int + 1),
            decreases whole.len() - count,
        {
            proof {
                assert(self@.len() > 0);
                assert(self@.take(1) =~= seq![whole[count as int]]);
            }
            let b = self.pop(1);
            proof {
                crate::bitseq::lemma_stream_bits_single(E::msb_first(), b as nat);
                assert(whole[count as int] == (b as nat % 2 == 1));
                assert(b < 2) by {
                    lemma2_to64();
                }
                assert(whole.skip(count as int).skip(1) =~= whole.skip(count as int + 1));
            }
            if b == 0 {
                break ;
            }
            proof {
                assert(whole[count as int]);
            }
            count = count + 1;
        }
        count
    }

    /// The queue's state as a table index: `2^bits + value`. Unique for each
    /// (bit count, value) pair of an 8-bit queue.
    pub fn to_state(&self) -> (r: usize)
        requires
            self.wf(),
            self.width == 8,
        ensures
            r == pow2(self.bits as nat) + self.value,
            1 <= r < 512,
    {
        proof {
            lemma_u64_shl1(self.bits);
            lemma2_to64();
            assert((1u64 << self.bits) + self.value <= 511) by {
                lemma_pow2_pos(self.bits as nat);
            }
        }
        ((1u64 << self.bits) + self.value) as usize
    }
}

} // verus!
