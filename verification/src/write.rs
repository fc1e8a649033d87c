//! Writing bit fields to a byte buffer.
//!
//! [`BitWrite`] is the shared contract of the three sinks: the live
//! [`BitWriter`], the [`BitCounter`] that only measures, and the
//! [`BitRecorder`] that replays. The trait pins down the bit
//! accounting — every operation advances `bits_written` by the same amount
//! on every implementation, so a counter or recorder can never diverge
//! from a live writer — and, for sinks that retain bits, the exact bits
//! appended.

use vstd::prelude::*;

use crate::BitError;
use crate::Endianness;
use crate::bitqueue::BitQueue;
use crate::bitseq::bytes_bits;
use crate::bitseq::lemma_bytes_bits_len;
use crate::bitseq::lemma_bytes_bits_push;
use crate::bitseq::lemma_stream_bits_len;
use crate::bitseq::lemma_stream_bits_single;
use crate::bitseq::stream_bits;
use crate::numeric::Numeric;
use crate::numeric::SignedNumeric;
use crate::numeric::signed_field;
use std::marker::PhantomData;

verus! {

broadcast use lemma_stream_bits_len, lemma_bytes_bits_len;

use vstd::arithmetic::power2::pow2;
use vstd::arithmetic::power2::lemma_pow2_adds;
use vstd::arithmetic::power2::lemma2_to64;
use vstd::arithmetic::power2::lemma2_to64_rest;

/// Whether an unsigned-path write request is acceptable: the field must
/// fit the type, and the value, compared as the type itself compares, must
/// lie below `2^bits`. A negative value of a signed type always passes and
/// wraps into the field as two's complement.
pub open spec fn write_valid<U: Numeric>(bits: u32, value: U) -> bool {
    bits <= U::width() && (bits < U::width() ==> value.as_int() < pow2(bits as nat))
}

/// Whether a signed write request is acceptable: the field must fit the
/// type, and the value must fit the field as two's complement.
pub open spec fn write_signed_valid<S: SignedNumeric>(bits: u32, value: S) -> bool {
    bits <= S::width() && (bits < S::width() ==> -(pow2((bits - 1) as nat) as int)
        <= value.as_signed() < pow2((bits - 1) as nat))
}

/// A sink for bit-level writes.
///
/// `bits_written` is the shared accounting; `content`, meaningful when
/// `tracks_bits` holds, is the exact bit sequence accepted so far, in the
/// sink's own bit order `msb_order`.
pub trait BitWrite: Sized {
    /// True if this sink lays values out most significant bit first.
    spec fn msb_order(&self) -> bool;

    /// How many bits have been accepted.
    spec fn bits_written(&self) -> nat;

    /// True if the sink retains the accepted bits themselves.
    spec fn tracks_bits(&self) -> bool;

    /// The bits accepted so far, for sinks that retain them.
    spec fn content(&self) -> Seq<bool>;

    /// The sink's invariant.
    spec fn inv(&self) -> bool;

    /// A tracking sink holds exactly as many bits as it has counted.
    proof fn lemma_content_len(&self)
        requires
            self.inv(),
        ensures
            self.tracks_bits() ==> self.content().len() == self.bits_written(),
    ;

    /// Accepts a single bit.
    fn write_bit(&mut self, bit: bool) -> (r: Result<(), BitError>)
        requires
            old(self).inv(),
            old(self).bits_written() + 1 <= u64::MAX,
        ensures
            final(self).inv(),
            final(self).msb_order() == old(self).msb_order(),
            final(self).tracks_bits() == old(self).tracks_bits(),
            r is Ok,
            final(self).bits_written() == old(self).bits_written() + 1,
            old(self).tracks_bits() ==> final(self).content() == old(self).content() + seq![bit],
    ;

    /// Accepts the low `bits` bits of `value`. A negative value of a
    /// signed type wraps into the field as two's complement; a
    /// non-negative value must lie below `2^bits`. Fails, changing
    /// nothing, when the field does not fit the type or the value does
    /// not fit the field.
    fn write<U: Numeric>(&mut self, bits: u32, value: U) -> (r: Result<(), BitError>)
        requires
            old(self).inv(),
            old(self).bits_written() + bits <= u64::MAX,
        ensures
            final(self).inv(),
            final(self).msb_order() == old(self).msb_order(),
            final(self).tracks_bits() == old(self).tracks_bits(),
            r is Ok <==> write_valid(bits, value),
            bits > U::width() ==> r is Err && r->Err_0 == BitError::TooManyBits,
            bits <= U::width() && !write_valid(bits, value) ==> r is Err && r->Err_0
                == BitError::ValueOutOfRange,
            r is Err ==> *final(self) == *old(self),
            r is Ok ==> final(self).bits_written() == old(self).bits_written() + bits && (old(self).tracks_bits() ==> final(self).content() == old(self).content() + stream_bits(
                old(self).msb_order(),
                (value.as_pattern() as nat) % pow2(bits as nat),
                bits as nat,
            )),
    ;

    /// Accepts a `bits`-wide two's-complement signed field. Fails, changing
    /// nothing, when the field does not fit the type or the value does not
    /// fit the field.
    fn write_signed<S: SignedNumeric>(&mut self, bits: u32, value: S) -> (r: Result<
        (),
        BitError,
    >)
        requires
            old(self).inv(),
            bits >= 1,
            old(self).bits_written() + bits <= u64::MAX,
        ensures
            final(self).inv(),
            final(self).msb_order() == old(self).msb_order(),
            final(self).tracks_bits() == old(self).tracks_bits(),
            r is Ok <==> write_signed_valid(bits, value),
            bits > S::width() ==> r is Err && r->Err_0 == BitError::TooManyBits,
            bits <= S::width() && !write_signed_valid(bits, value) ==> r is Err && r->Err_0
                == BitError::ValueOutOfRange,
            r is Err ==> *final(self) == *old(self),
            r is Ok ==> final(self).bits_written() == old(self).bits_written() + bits && (old(self).tracks_bits() ==> final(self).content() == old(self).content() + stream_bits(
                old(self).msb_order(),
                signed_field(value.as_signed(), bits as nat),
                bits as nat,
            )),
    ;

    /// Accepts whole bytes, eight bits each, in buffer order.
    fn write_bytes(&mut self, buf: &[u8]) -> (r: Result<(), BitError>)
        requires
            old(self).inv(),
            old(self).bits_written() + 8 * buf@.len() <= u64::MAX,
        ensures
            final(self).inv(),
            final(self).msb_order() == old(self).msb_order(),
            final(self).tracks_bits() == old(self).tracks_bits(),
            r is Ok,
            final(self).bits_written() == old(self).bits_written() + 8 * buf@.len(),
            old(self).tracks_bits() ==> final(self).content() == old(self).content() + bytes_bits(
                old(self).msb_order(),
                buf@,
            ),
    ;

    /// Accepts `value` 1 bits followed by a terminating 0 bit.
    fn write_unary0(&mut self, value: u32) -> (r: Result<(), BitError>)
        requires
            old(self).inv(),
            old(self).bits_written() + value + 1 <= u64::MAX,
        ensures
            final(self).inv(),
            final(self).msb_order() == old(self).msb_order(),
            final(self).tracks_bits() == old(self).tracks_bits(),
            r is Ok,
            final(self).bits_written() == old(self).bits_written() + value + 1,
            old(self).tracks_bits() ==> final(self).content() == old(self).content() + Seq::new(
                value as nat,
                |i: int| true,
            ).push(false),
    ;

    /// Accepts `value` 0 bits followed by a terminating 1 bit.
    fn write_unary1(&mut self, value: u32) -> (r: Result<(), BitError>)
        requires
            old(self).inv(),
            old(self).bits_written() + value + 1 <= u64::MAX,
        ensures
            final(self).inv(),
            final(self).msb_order() == old(self).msb_order(),
            final(self).tracks_bits() == old(self).tracks_bits(),
            r is Ok,
            final(self).bits_written() == old(self).bits_written() + value + 1,
            old(self).tracks_bits() ==> final(self).content() == old(self).content() + Seq::new(
                value as nat,
                |i: int| false,
            ).push(true),
    ;

    /// True if the bits accepted so far make up whole bytes.
    fn byte_aligned(&self) -> (r: bool)
        requires
            self.inv(),
        ensures
            r == (self.bits_written() % 8 == 0),
    ;

    /// Pads with 0 bits to the next whole byte: exactly
    /// `(8 - bits_written % 8) % 8` of them, so a no-op when already
    /// aligned.
    fn byte_align(&mut self) -> (r: Result<(), BitError>)
        requires
            old(self).inv(),
            old(self).bits_written() + 7 <= u64::MAX,
        ensures
            final(self).inv(),
            final(self).msb_order() == old(self).msb_order(),
            final(self).tracks_bits() == old(self).tracks_bits(),
            r is Ok,
            final(self).bits_written() == old(self).bits_written() + (8 - old(self).bits_written() % 8) % 8,
            final(self).bits_written() % 8 == 0,
            old(self).bits_written() % 8 == 0 ==> *final(self) == *old(self),
            old(self).tracks_bits() ==> final(self).content() == old(self).content() + Seq::new(
                (((8 - old(self).bits_written() % 8) % 8) as nat),
                |i: int| false,
            ),
    ;
}

/// Writes bit fields of arbitrary width into an owned byte buffer, in the
/// bit order `E`, buffering at most one partial byte; whole bytes are
/// appended to the buffer as they fill.
pub struct BitWriter<E: Endianness> {
    /// The whole bytes flushed so far.
    pub data: Vec<u8>,
    /// Bits accepted but not yet making up a whole byte.
    pub bitqueue: BitQueue<E>,
}

impl<E: Endianness> BitWriter<E> {
    /// The writer's invariant: an 8-bit accumulator that is flushed before
    /// it fills.
    pub open spec fn wf(self) -> bool {
        &&& self.bitqueue.wf()
        &&& self.bitqueue.width == 8
        &&& self.bitqueue@.len() < 8
    }

    /// Everything written so far: the flushed bytes' bits, then the
    /// buffered partial byte.
    pub open spec fn written(self) -> Seq<bool> {
        bytes_bits(E::msb_first(), self.data@) + self.bitqueue@
    }

    /// A writer appending to the given byte buffer, starting aligned.
    pub fn new(data: Vec<u8>) -> (r: Self)
        ensures
            r.wf(),
            r.data@ == data@,
            r.written() == bytes_bits(E::msb_first(), data@),
    {
        let r = BitWriter { data, bitqueue: BitQueue::new(8) };
        proof {
            assert(r.written() =~= bytes_bits(E::msb_first(), r.data@));
        }
        r
    }

    /// A writer appending to the given byte buffer, with the bit order
    /// named by value.
    pub fn endian(data: Vec<u8>, _endian: E) -> (r: Self)
        ensures
            r.wf(),
            r.data@ == data@,
            r.written() == bytes_bits(E::msb_first(), data@),
    {
        Self::new(data)
    }

    /// Gives the byte buffer back, discarding any buffered partial bits.
    pub fn into_writer(self) -> (r: Vec<u8>)
        ensures
            r@ == self.data@,
    {
        self.data
    }

    /// The buffered partial byte as a `(bit count, value)` pair.
    pub fn into_unwritten(self) -> (r: (u32, u8))
        requires
            self.wf(),
        ensures
            r.0 as nat == self.bitqueue@.len(),
            r.1 as nat == crate::bitseq::stream_val(E::msb_first(), self.bitqueue@),
    {
        let bits = self.bitqueue.len();
        let value = self.bitqueue.value();
        proof {
            lemma2_to64();
            crate::bitseq::lemma_pow2_le(self.bitqueue@.len(), 8);
        }
        (bits, value as u8)
    }

    /// Nothing is buffered beyond the partial byte, so there is nothing to
    /// flush; the partial byte itself is never flushed early.
    pub fn flush(&mut self) -> (r: Result<(), BitError>)
        requires
            old(self).wf(),
        ensures
            *final(self) == *old(self),
            r is Ok,
    {
        Ok(())
    }

    /// The engine: appends the low `bits` bits of the pattern `v` to the
    /// written stream, filling the accumulator and flushing whole bytes.
    #[verifier::loop_isolation(false)]
    #[verifier::rlimit(60)]
    fn write_pattern(&mut self, bits: u32, v: u64)
        requires
            old(self).wf(),
            bits <= 64,
            (v as nat) < pow2(bits as nat),
        ensures
            final(self).wf(),
            final(self).written() == old(self).written() + stream_bits(
                E::msb_first(),
                v as nat,
                bits as nat,
            ),
    {
        let ghost m = E::msb_first();
        let ghost target = old(self).written() + stream_bits(m, v as nat, bits as nat);
        let qrem = self.bitqueue.remaining_len();
        if bits < qrem {
            self.bitqueue.push(bits, v);
            proof {
                assert(final(self).written() =~= target);
            }
            return ;
        }
        let mut acc = BitQueue::<E>::from_value(64, v, bits);
        proof {
            assert(self.written() + acc@ =~= target);
        }
        // fill the accumulator to a whole byte and flush it
        let head = acc.pop(qrem);
        self.bitqueue.push(qrem, head);
        proof {
            assert(self.written() =~= old(self).written() + stream_bits(m, v as nat, bits as nat).take(
                qrem as int,
            ));
            assert(self.written() + acc@ =~= target);
            assert(self.bitqueue@.len() == 8);
        }
        let ghost w1 = *self;
        let byte = self.bitqueue.pop(8);
        proof {
            lemma2_to64();
            assert(w1.bitqueue@.take(8) =~= w1.bitqueue@);
            assert(w1.bitqueue@.skip(8) =~= Seq::<bool>::empty());
        }
        self.data.push(byte as u8);
        proof {
            lemma_bytes_bits_push(m, w1.data@, byte as u8);
            assert(self.written() =~= w1.written());
            assert(self.written() + acc@ =~= target);
        }
        // flush the whole bytes that remain in the transfer accumulator
        while acc.len() >= 8
            invariant
                self.wf(),
                acc.wf(),
                acc.width == 64,
                self.bitqueue@.len() == 0,
                self.written() + acc@ == target,
            decreases acc@.len(),
        {
            let ghost w2 = *self;
            let ghost a2 = acc@;
            let b = acc.pop(8);
            proof {
                lemma2_to64();
            }
            self.data.push(b as u8);
            proof {
                lemma_bytes_bits_push(m, w2.data@, b as u8);
                assert(self.written() =~= w2.written() + a2.take(8));
                assert(self.written() + acc@ =~= target);
            }
        }
        // park the leftover sub-byte bits in the accumulator
        let rest = acc.len();
        let ghost a3 = acc@;
        let tail = acc.pop_all();
        let ghost w3 = *self;
        self.bitqueue.push(rest, tail);
        proof {
            assert(final(self).written() =~= w3.written() + a3);
            assert(final(self).written() =~= target);
        }
    }
}

impl<E: Endianness> BitWrite for BitWriter<E> {
    open spec fn msb_order(&self) -> bool {
        E::msb_first()
    }

    open spec fn bits_written(&self) -> nat {
        self.written().len()
    }

    open spec fn tracks_bits(&self) -> bool {
        true
    }

    open spec fn content(&self) -> Seq<bool> {
        self.written()
    }

    open spec fn inv(&self) -> bool {
        self.wf()
    }

    proof fn lemma_content_len(&self) {
    }

    fn write_bit(&mut self, bit: bool) -> (r: Result<(), BitError>) {
        let ghost m = E::msb_first();
        proof {
            lemma2_to64();
        }
        self.write_pattern(
            1,
            if bit {
                1
            } else {
                0
            },
        );
        proof {
            lemma_stream_bits_single(
                m,
                if bit {
                    1nat
                } else {
                    0nat
                },
            );
        }
        Ok(())
    }

    fn write<U: Numeric>(&mut self, bits: u32, value: U) -> (r: Result<(), BitError>) {
        proof {
            U::lemma_width();
            value.lemma_pattern();
        }
        if bits > U::bits_size() {
            return Err(BitError::TooManyBits);
        }
        if bits < U::bits_size() {
            if !value.fits_field(bits) {
                return Err(BitError::ValueOutOfRange);
            }
        }
        let p = value.to_pattern();
        // keep the low `bits` bits: a negative value of a signed type wraps
        // into the field as two's complement
        let u: u64;
        if bits < 64 {
            proof {
                crate::bitqueue::lemma_u64_shl1(bits);
            }
            u = p % (1u64 << bits);
            proof {
                vstd::arithmetic::div_mod::lemma_mod_division_less_than_divisor(
                    p as int,
                    pow2(bits as nat) as int,
                );
            }
        } else {
            u = p;
            proof {
                lemma2_to64_rest();
                vstd::arithmetic::div_mod::lemma_small_mod(p as nat, pow2(64));
            }
        }
        self.write_pattern(bits, u);
        Ok(())
    }

    fn write_signed<S: SignedNumeric>(&mut self, bits: u32, value: S) -> (r: Result<
        (),
        BitError,
    >) {
        proof {
            S::lemma_width();
            value.lemma_pattern();
            value.lemma_signed();
            lemma2_to64();
            lemma2_to64_rest();
        }
        if bits > S::bits_size() {
            return Err(BitError::TooManyBits);
        }
        let width = S::bits_size();
        let p = value.to_pattern();
        let u: u64;
        if bits == width {
            proof {
                let sv = value.as_signed();
                if sv < 0 {
                    assert(signed_field(sv, bits as nat) == p);
                } else {
                    assert(signed_field(sv, bits as nat) == p);
                }
            }
            u = p;
        } else {
            proof {
                crate::bitqueue::lemma_u64_shl1((bits - 1) as u32);
                crate::bitqueue::lemma_u64_shl1((width - 1) as u32);
                crate::bitqueue::lemma_u64_shl1((width - bits) as u32);
                crate::bitseq::lemma_pow2_le(bits as nat, (width - 1) as nat);
                crate::bitseq::lemma_pow2_le((bits - 1) as nat, (width - 1) as nat);
                lemma_pow2_adds((width - bits) as nat, bits as nat);
                lemma_pow2_adds((width - 1) as nat, 1);
                lemma_pow2_adds((bits - 1) as nat, 1);
                assert((pow2((width - bits) as nat) - 1) * pow2(bits as nat) == pow2(
                    width as nat,
                ) - pow2(bits as nat)) by (nonlinear_arith)
                    requires
                        pow2((width - bits) as nat) * pow2(bits as nat) == pow2(width as nat),
                ;
            }
            let half = 1u64 << (bits - 1);
            let ext = ((1u64 << (width - bits)) - 1) << bits;
            proof {
                vstd::bits::lemma_u64_shl_is_mul(((1u64 << ((width - bits) as u32)) - 1) as u64, bits as u64);
            }
            let neg = p >= (1u64 << (width - 1));
            proof {
                let sv = value.as_signed();
                if neg && sv >= 0 {
                    assert(false);
                }
                if !neg && sv < 0 {
                    assert(p as int == sv + pow2(width as nat));
                    assert(p >= pow2((width - 1) as nat));
                    assert(false);
                }
            }
            if neg {
                if p < ext + half {
                    proof {
                        assert(value.as_signed() < -(pow2((bits - 1) as nat) as int));
                    }
                    return Err(BitError::ValueOutOfRange);
                }
                u = p - ext;
                proof {
                    assert(u as int == value.as_signed() + pow2(bits as nat));
                    assert(signed_field(value.as_signed(), bits as nat) == u);
                }
            } else {
                if p >= half {
                    return Err(BitError::ValueOutOfRange);
                }
                u = p;
                proof {
                    assert(signed_field(value.as_signed(), bits as nat) == u);
                }
            }
        }
        self.write_pattern(bits, u);
        Ok(())
    }

    #[verifier::loop_isolation(false)]
    fn write_bytes(&mut self, buf: &[u8]) -> (r: Result<(), BitError>) {
        let ghost m = E::msb_first();
        let ghost orig = self.written();
        let mut i: usize = 0;
        proof {
            assert(buf@.take(0) =~= Seq::<u8>::empty());
            assert(orig + bytes_bits(m, buf@.take(0)) =~= orig);
        }
        while i < buf.len()
            invariant
                self.wf(),
                i <= buf@.len(),
                self.written() == orig + bytes_bits(m, buf@.take(i as int)),
            decreases buf@.len() - i,
        {
            let b = buf[i];
            proof {
                lemma2_to64();
            }
            self.write_pattern(8, b as u64);
            proof {
                lemma_bytes_bits_push(m, buf@.take(i as int), b);
                assert(buf@.take(i as int).push(b) =~= buf@.take(i + 1));
                assert(self.written() =~= orig + bytes_bits(m, buf@.take(i + 1)));
            }
            i = i + 1;
        }
        proof {
            assert(buf@.take(buf@.len() as int) =~= buf@);
        }
        Ok(())
    }

    #[verifier::loop_isolation(false)]
    fn write_unary0(&mut self, value: u32) -> (r: Result<(), BitError>) {
        let ghost m = E::msb_first();
        let ghost orig = self.written();
        // write the run of 1 bits in chunks no wider than the transfer
        // register, then the terminating 0 bit
        let mut rem: u32 = value;
        proof {
            assert(orig + Seq::new(0, |j: int| true) =~= orig);
        }
        while rem >= 64
            invariant
                self.wf(),
                rem <= value,
                self.written() == orig + Seq::new((value - rem) as nat, |j: int| true),
            decreases rem,
        {
            proof {
                lemma2_to64_rest();
                crate::bitseq::lemma_stream_bits_ones(m, 64);
            }
            self.write_pattern(64, u64::MAX);
            proof {
                assert(self.written() =~= orig + Seq::new((value - rem + 64) as nat, |j: int| true));
            }
            rem = rem - 64;
        }
        if rem > 0 {
            proof {
                crate::bitqueue::lemma_u64_shl1(rem);
                crate::bitseq::lemma_stream_bits_ones(m, rem as nat);
            }
            self.write_pattern(rem, (1u64 << rem) - 1);
            proof {
                assert(self.written() =~= orig + Seq::new(value as nat, |j: int| true));
            }
        }
        proof {
            lemma2_to64();
            lemma_stream_bits_single(m, 0);
        }
        self.write_pattern(1, 0);
        proof {
            assert(final(self).written() =~= orig + Seq::new(value as nat, |j: int| true).push(
                false,
            ));
        }
        Ok(())
    }

    #[verifier::loop_isolation(false)]
    fn write_unary1(&mut self, value: u32) -> (r: Result<(), BitError>) {
        let ghost m = E::msb_first();
        let ghost orig = self.written();
        // write the run of 0 bits in chunks no wider than the transfer
        // register, then the terminating 1 bit
        let mut rem: u32 = value;
        proof {
            assert(orig + Seq::new(0, |j: int| false) =~= orig);
        }
        while rem >= 64
            invariant
                self.wf(),
                rem <= value,
                self.written() == orig + Seq::new((value - rem) as nat, |j: int| false),
            decreases rem,
        {
            proof {
                lemma2_to64_rest();
                crate::bitseq::lemma_stream_bits_zero(m, 64);
            }
            self.write_pattern(64, 0);
            proof {
                assert(self.written() =~= orig + Seq::new(
                    (value - rem + 64) as nat,
                    |j: int| false,
                ));
            }
            rem = rem - 64;
        }
        if rem > 0 {
            proof {
                crate::bitqueue::lemma_u64_shl1(rem);
                crate::bitseq::lemma_stream_bits_zero(m, rem as nat);
            }
            self.write_pattern(rem, 0);
            proof {
                assert(self.written() =~= orig + Seq::new(value as nat, |j: int| false));
            }
        }
        proof {
            lemma2_to64();
            lemma_stream_bits_single(m, 1);
        }
        self.write_pattern(1, 1);
        proof {
            assert(final(self).written() =~= orig + Seq::new(value as nat, |j: int| false).push(
                true,
            ));
        }
        Ok(())
    }

    fn byte_aligned(&self) -> (r: bool) {
        proof {
            vstd::arithmetic::div_mod::lemma_mod_multiples_vanish(
                self.data@.len() as int,
                self.bitqueue@.len() as int,
                8,
            );
            vstd::arithmetic::div_mod::lemma_small_mod(self.bitqueue@.len(), 8);
        }
        self.bitqueue.is_empty()
    }

    #[verifier::loop_isolation(false)]
    fn byte_align(&mut self) -> (r: Result<(), BitError>) {
        let ghost m = E::msb_first();
        let ghost orig = self.written();
        let ghost pad = (8 - orig.len() % 8) % 8;
        proof {
            vstd::arithmetic::div_mod::lemma_mod_multiples_vanish(
                old(self).data@.len() as int,
                old(self).bitqueue@.len() as int,
                8,
            );
            vstd::arithmetic::div_mod::lemma_small_mod(old(self).bitqueue@.len(), 8);
            assert(orig.len() % 8 == old(self).bitqueue@.len());
            assert(orig + Seq::new(0, |j: int| false) =~= orig);
        }
        let mut i: u32 = 0;
        while !self.bitqueue.is_empty()
            invariant
                self.wf(),
                i as nat <= pad,
                i == 0 ==> *self == *old(self),
                self.written() == orig + Seq::new(i as nat, |j: int| false),
                self.bitqueue@.len() == (orig.len() + i) % 8,
                i < 8,
                self.data@.len() * 8 + self.bitqueue@.len() == orig.len() + i,
            decreases pad - i,
        {
            proof {
                lemma2_to64();
                lemma_stream_bits_single(m, 0);
            }
            self.write_pattern(1, 0);
            proof {
                assert(self.written() =~= orig + Seq::new((i + 1) as nat, |j: int| false));
                vstd::arithmetic::div_mod::lemma_mod_multiples_vanish(
                    self.data@.len() as int,
                    self.bitqueue@.len() as int,
                    8,
                );
                vstd::arithmetic::div_mod::lemma_small_mod(self.bitqueue@.len(), 8);
            }
            i = i + 1;
        }
        proof {
            assert((orig.len() + i) % 8 == 0);
            assert(i as nat == pad);
        }
        Ok(())
    }
}

/// Decides at run time whether a signed value fits a `bits`-wide field,
/// exactly as [`write_signed_valid`] says.
fn signed_fits<S: SignedNumeric>(bits: u32, value: S) -> (r: bool)
    requires
        1 <= bits <= S::width(),
    ensures
        r == write_signed_valid(bits, value),
{
    proof {
        S::lemma_width();
        value.lemma_pattern();
        value.lemma_signed();
        lemma2_to64();
        lemma2_to64_rest();
    }
    let width = S::bits_size();
    if bits == width {
        return true;
    }
    proof {
        crate::bitqueue::lemma_u64_shl1((bits - 1) as u32);
        crate::bitqueue::lemma_u64_shl1((width - 1) as u32);
        crate::bitqueue::lemma_u64_shl1((width - bits) as u32);
        crate::bitseq::lemma_pow2_le(bits as nat, (width - 1) as nat);
        crate::bitseq::lemma_pow2_le((bits - 1) as nat, (width - 1) as nat);
        lemma_pow2_adds((width - bits) as nat, bits as nat);
        lemma_pow2_adds((width - 1) as nat, 1);
        lemma_pow2_adds((bits - 1) as nat, 1);
        assert((pow2((width - bits) as nat) - 1) * pow2(bits as nat) == pow2(width as nat) - pow2(
            bits as nat,
        )) by (nonlinear_arith)
            requires
                pow2((width - bits) as nat) * pow2(bits as nat) == pow2(width as nat),
        ;
    }
    let p = value.to_pattern();
    let half = 1u64 << (bits - 1);
    let neg = p >= (1u64 << (width - 1));
    proof {
        let sv = value.as_signed();
        if neg && sv >= 0 {
            assert(false);
        }
        if !neg && sv < 0 {
            assert(p as int == sv + pow2(width as nat));
            assert(p >= pow2((width - 1) as nat));
            assert(false);
        }
    }
    if neg {
        let ext = ((1u64 << (width - bits)) - 1) << bits;
        proof {
            vstd::bits::lemma_u64_shl_is_mul(
                ((1u64 << ((width - bits) as u32)) - 1) as u64,
                bits as u64,
            );
        }
        p >= ext + half
    } else {
        p < half
    }
}

/// Counts the bits that would be written, performing no output. The same
/// validations apply as on a live writer, so the count never diverges from
/// what a live writer would produce.
pub struct BitCounter<E: Endianness> {
    /// The running total of accepted bits.
    pub bits: u64,
    /// The bit-order marker.
    pub order: PhantomData<E>,
}

impl<E: Endianness> BitCounter<E> {
    /// A fresh counter at zero.
    pub fn new() -> (r: Self)
        ensures
            r.bits == 0,
    {
        BitCounter { bits: 0, order: PhantomData }
    }

    /// The number of bits accepted so far.
    pub fn written(&self) -> (r: u64)
        ensures
            r as nat == self.bits_written(),
    {
        self.bits
    }
}

impl<E: Endianness> BitWrite for BitCounter<E> {
    open spec fn msb_order(&self) -> bool {
        E::msb_first()
    }

    open spec fn bits_written(&self) -> nat {
        self.bits as nat
    }

    open spec fn tracks_bits(&self) -> bool {
        false
    }

    open spec fn content(&self) -> Seq<bool> {
        Seq::empty()
    }

    open spec fn inv(&self) -> bool {
        true
    }

    proof fn lemma_content_len(&self) {
    }

    fn write_bit(&mut self, bit: bool) -> (r: Result<(), BitError>) {
        self.bits = self.bits + 1;
        Ok(())
    }

    fn write<U: Numeric>(&mut self, bits: u32, value: U) -> (r: Result<(), BitError>) {
        proof {
            U::lemma_width();
        }
        if bits > U::bits_size() {
            return Err(BitError::TooManyBits);
        }
        if bits < U::bits_size() {
            if !value.fits_field(bits) {
                return Err(BitError::ValueOutOfRange);
            }
        }
        self.bits = self.bits + bits as u64;
        Ok(())
    }

    fn write_signed<S: SignedNumeric>(&mut self, bits: u32, value: S) -> (r: Result<
        (),
        BitError,
    >) {
        proof {
            S::lemma_width();
        }
        if bits > S::bits_size() {
            return Err(BitError::TooManyBits);
        }
        if !signed_fits(bits, value) {
            return Err(BitError::ValueOutOfRange);
        }
        self.bits = self.bits + bits as u64;
        Ok(())
    }

    fn write_bytes(&mut self, buf: &[u8]) -> (r: Result<(), BitError>) {
        self.bits = self.bits + (buf.len() as u64) * 8;
        Ok(())
    }

    fn write_unary0(&mut self, value: u32) -> (r: Result<(), BitError>) {
        self.bits = self.bits + value as u64 + 1;
        Ok(())
    }

    fn write_unary1(&mut self, value: u32) -> (r: Result<(), BitError>) {
        self.bits = self.bits + value as u64 + 1;
        Ok(())
    }

    fn byte_aligned(&self) -> (r: bool) {
        self.bits % 8 == 0
    }

    fn byte_align(&mut self) -> (r: Result<(), BitError>) {
        let rem = self.bits % 8;
        if rem != 0 {
            self.bits = self.bits + (8 - rem);
        }
        Ok(())
    }
}

/// A recorded write, kept verbatim for later playback.
pub enum WriteRecord {
    /// A single bit.
    Bit(bool),
    /// An unsigned field of the given width.
    Unsigned {
        /// The field width in bits.
        bits: u32,
        /// The value, remembering its original type.
        value: UnsignedValue,
    },
    /// A signed field of the given width.
    Signed {
        /// The field width in bits.
        bits: u32,
        /// The value, remembering its original type.
        value: SignedValue,
    },
    /// A run of 1 bits with a 0 terminator.
    Unary0(u32),
    /// A run of 0 bits with a 1 terminator.
    Unary1(u32),
    /// A span of whole bytes.
    Bytes(Vec<u8>),
}

/// A value of any field type, boxed for recording.
pub struct UnsignedValue(pub InnerUnsignedValue);

/// The cases of [`UnsignedValue`], one per field type.
pub enum InnerUnsignedValue {
    /// An 8-bit unsigned value.
    U8(u8),
    /// A 16-bit unsigned value.
    U16(u16),
    /// A 32-bit unsigned value.
    U32(u32),
    /// A 64-bit unsigned value.
    U64(u64),
    /// An 8-bit value recorded through the unsigned path.
    I8(i8),
    /// A 16-bit value recorded through the unsigned path.
    I16(i16),
    /// A 32-bit value recorded through the unsigned path.
    I32(i32),
    /// A 64-bit value recorded through the unsigned path.
    I64(i64),
}

impl UnsignedValue {
    /// The recorded type's width in bits.
    pub open spec fn spec_width(self) -> u32 {
        match self.0 {
            InnerUnsignedValue::U8(_) => 8,
            InnerUnsignedValue::U16(_) => 16,
            InnerUnsignedValue::U32(_) => 32,
            InnerUnsignedValue::U64(_) => 64,
            InnerUnsignedValue::I8(_) => 8,
            InnerUnsignedValue::I16(_) => 16,
            InnerUnsignedValue::I32(_) => 32,
            InnerUnsignedValue::I64(_) => 64,
        }
    }

    /// The recorded value as the mathematical integer its type denotes.
    pub open spec fn spec_int(self) -> int {
        match self.0 {
            InnerUnsignedValue::U8(v) => v as int,
            InnerUnsignedValue::U16(v) => v as int,
            InnerUnsignedValue::U32(v) => v as int,
            InnerUnsignedValue::U64(v) => v as int,
            InnerUnsignedValue::I8(v) => v as int,
            InnerUnsignedValue::I16(v) => v as int,
            InnerUnsignedValue::I32(v) => v as int,
            InnerUnsignedValue::I64(v) => v as int,
        }
    }

    /// The recorded value's bit pattern.
    pub open spec fn spec_pattern(self) -> u64 {
        match self.0 {
            InnerUnsignedValue::U8(v) => v as u64,
            InnerUnsignedValue::U16(v) => v as u64,
            InnerUnsignedValue::U32(v) => v as u64,
            InnerUnsignedValue::U64(v) => v,
            InnerUnsignedValue::I8(v) => if v < 0 {
                (v + 0x100) as u64
            } else {
                v as u64
            },
            InnerUnsignedValue::I16(v) => if v < 0 {
                (v + 0x1_0000) as u64
            } else {
                v as u64
            },
            InnerUnsignedValue::I32(v) => if v < 0 {
                (v + 0x1_0000_0000) as u64
            } else {
                v as u64
            },
            InnerUnsignedValue::I64(v) => if v < 0 {
                (v + 0x1_0000_0000_0000_0000) as u64
            } else {
                v as u64
            },
        }
    }
}

/// A signed value of any field type, boxed for recording.
pub struct SignedValue(pub InnerSignedValue);

/// The cases of [`SignedValue`], one per signed field type.
pub enum InnerSignedValue {
    /// An 8-bit signed value.
    I8(i8),
    /// A 16-bit signed value.
    I16(i16),
    /// A 32-bit signed value.
    I32(i32),
    /// A 64-bit signed value.
    I64(i64),
}

impl SignedValue {
    /// The recorded type's width in bits.
    pub open spec fn spec_width(self) -> u32 {
        match self.0 {
            InnerSignedValue::I8(_) => 8,
            InnerSignedValue::I16(_) => 16,
            InnerSignedValue::I32(_) => 32,
            InnerSignedValue::I64(_) => 64,
        }
    }

    /// The recorded value as a mathematical integer.
    pub open spec fn spec_signed(self) -> int {
        match self.0 {
            InnerSignedValue::I8(v) => v as int,
            InnerSignedValue::I16(v) => v as int,
            InnerSignedValue::I32(v) => v as int,
            InnerSignedValue::I64(v) => v as int,
        }
    }
}

/// How many bits a record occupies, independent of bit order.
pub open spec fn record_len(rec: WriteRecord) -> nat {
    match rec {
        WriteRecord::Bit(_) => 1,
        WriteRecord::Unsigned { bits, value } => bits as nat,
        WriteRecord::Signed { bits, value } => bits as nat,
        WriteRecord::Unary0(v) => v as nat + 1,
        WriteRecord::Unary1(v) => v as nat + 1,
        WriteRecord::Bytes(b) => 8 * b@.len(),
    }
}

/// A record a writer would have accepted: the field fits the type and the
/// value fits the field.
pub open spec fn record_wf(rec: WriteRecord) -> bool {
    match rec {
        WriteRecord::Bit(_) => true,
        WriteRecord::Unsigned { bits, value } => bits <= value.spec_width() && (bits
            < value.spec_width() ==> value.spec_int() < pow2(bits as nat)),
        WriteRecord::Signed { bits, value } => 1 <= bits <= value.spec_width() && (bits
            < value.spec_width() ==> -(pow2((bits - 1) as nat) as int) <= value.spec_signed()
            < pow2((bits - 1) as nat)),
        WriteRecord::Unary0(_) => true,
        WriteRecord::Unary1(_) => true,
        WriteRecord::Bytes(_) => true,
    }
}

/// The bits a record produces on a sink of the given bit order.
pub open spec fn record_bits(msb: bool, rec: WriteRecord) -> Seq<bool> {
    match rec {
        WriteRecord::Bit(b) => seq![b],
        WriteRecord::Unsigned { bits, value } => stream_bits(
            msb,
            (value.spec_pattern() as nat) % pow2(bits as nat),
            bits as nat,
        ),
        WriteRecord::Signed { bits, value } => stream_bits(
            msb,
            signed_field(value.spec_signed(), bits as nat),
            bits as nat,
        ),
        WriteRecord::Unary0(v) => Seq::new(v as nat, |i: int| true).push(false),
        WriteRecord::Unary1(v) => Seq::new(v as nat, |i: int| false).push(true),
        WriteRecord::Bytes(b) => bytes_bits(msb, b@),
    }
}

/// A record occupies `record_len` bits whatever the bit order.
pub broadcast proof fn lemma_record_bits_len(msb: bool, rec: WriteRecord)
    ensures
        (#[trigger] record_bits(msb, rec)).len() == record_len(rec),
{
    match rec {
        WriteRecord::Unsigned { bits, value } => {
            lemma_stream_bits_len(
                msb,
                (value.spec_pattern() as nat) % pow2(bits as nat),
                bits as nat,
            );
        },
        _ => {
        },
    }
}

/// The bits a whole sequence of records produces, in order.
pub open spec fn records_bits(msb: bool, recs: Seq<WriteRecord>) -> Seq<bool>
    decreases recs.len(),
{
    if recs.len() == 0 {
        Seq::empty()
    } else {
        record_bits(msb, recs[0]) + records_bits(msb, recs.skip(1))
    }
}

/// The total bit length of a sequence of records.
pub open spec fn records_len(recs: Seq<WriteRecord>) -> nat
    decreases recs.len(),
{
    if recs.len() == 0 {
        0
    } else {
        record_len(recs[0]) + records_len(recs.skip(1))
    }
}

/// Every record in the sequence is one a writer would have accepted.
pub open spec fn records_wf(recs: Seq<WriteRecord>) -> bool {
    forall|i: int| 0 <= i < recs.len() ==> record_wf(#[trigger] recs[i])
}

/// A sequence of records produces exactly its total length in bits.
pub broadcast proof fn lemma_records_bits_len(msb: bool, recs: Seq<WriteRecord>)
    ensures
        (#[trigger] records_bits(msb, recs)).len() == records_len(recs),
    decreases recs.len(),
{
    if recs.len() > 0 {
        lemma_record_bits_len(msb, recs[0]);
        lemma_records_bits_len(msb, recs.skip(1));
    }
}

/// Appending a record appends its bits and adds its length.
pub proof fn lemma_records_push(msb: bool, recs: Seq<WriteRecord>, rec: WriteRecord)
    ensures
        records_bits(msb, recs.push(rec)) == records_bits(msb, recs) + record_bits(msb, rec),
        records_len(recs.push(rec)) == records_len(recs) + record_len(rec),
    decreases recs.len(),
{
    if recs.len() == 0 {
        assert(recs.push(rec).skip(1) =~= Seq::<WriteRecord>::empty());
        assert(recs.push(rec)[0] == rec);
        assert(recs.push(rec).len() == 1);
        assert(records_bits(msb, Seq::<WriteRecord>::empty()) == Seq::<bool>::empty());
        assert(records_len(Seq::<WriteRecord>::empty()) == 0);
        assert(records_bits(msb, recs.push(rec)) == record_bits(msb, rec) + Seq::<bool>::empty());
        assert(records_len(recs.push(rec)) == record_len(rec));
        assert(recs =~= Seq::<WriteRecord>::empty());
        assert(record_bits(msb, rec) + Seq::<bool>::empty() =~= Seq::<bool>::empty() + record_bits(
            msb,
            rec,
        ));
    } else {
        assert(recs.push(rec).skip(1) =~= recs.skip(1).push(rec));
        assert(recs.push(rec)[0] == recs[0]);
        lemma_records_push(msb, recs.skip(1), rec);
        assert(record_bits(msb, recs[0]) + (records_bits(msb, recs.skip(1)) + record_bits(
            msb,
            rec,
        )) =~= (record_bits(msb, recs[0]) + records_bits(msb, recs.skip(1))) + record_bits(
            msb,
            rec,
        ));
    }
}

/// The total length splits wherever the record sequence splits.
pub proof fn lemma_records_len_split(recs: Seq<WriteRecord>, i: int)
    requires
        0 <= i <= recs.len(),
    ensures
        records_len(recs) == records_len(recs.take(i)) + records_len(recs.skip(i)),
    decreases i,
{
    if i == 0 {
        assert(recs.take(0) =~= Seq::<WriteRecord>::empty());
        assert(recs.skip(0) =~= recs);
    } else {
        lemma_records_len_split(recs.skip(1), i - 1);
        assert(recs.skip(1).take(i - 1) =~= recs.take(i).skip(1));
        assert(recs.skip(1).skip(i - 1) =~= recs.skip(i));
        assert(recs.take(i)[0] == recs[0]);
        assert(recs.take(i).len() > 0);
    }
}

/// Law: a recorded sequence of writes occupies the same number of bits on
/// every sink, whichever bit order the sink uses — the counting a recorder
/// or counter reports can never diverge from what a live writer produces.
pub proof fn lemma_record_accounting(msb1: bool, msb2: bool, recs: Seq<WriteRecord>)
    ensures
        records_bits(msb1, recs).len() == records_bits(msb2, recs).len(),
        records_bits(msb1, recs).len() == records_len(recs),
{
    lemma_records_bits_len(msb1, recs);
    lemma_records_bits_len(msb2, recs);
}

/// Records every write for later playback, while counting like a
/// [`BitCounter`]. Playback replays the records, in order, against any
/// other sink through the same write contract, so what was recorded is
/// exactly what the sink receives.
pub struct BitRecorder<E: Endianness> {
    /// The running total of accepted bits.
    pub bits: u64,
    /// The writes accepted so far, in order.
    pub records: Vec<WriteRecord>,
    /// The bit-order marker.
    pub order: PhantomData<E>,
}

impl<E: Endianness> BitRecorder<E> {
    /// A fresh recorder with nothing recorded.
    pub fn new() -> (r: Self)
        ensures
            r.inv(),
            r.records@ == Seq::<WriteRecord>::empty(),
            r.bits_written() == 0,
    {
        BitRecorder { bits: 0, records: Vec::new(), order: PhantomData }
    }

    /// A fresh recorder sized for the given number of writes.
    pub fn with_capacity(writes: usize) -> (r: Self)
        ensures
            r.inv(),
            r.records@ == Seq::<WriteRecord>::empty(),
            r.bits_written() == 0,
    {
        BitRecorder { bits: 0, records: Vec::with_capacity(writes), order: PhantomData }
    }

    /// A fresh recorder, with the bit order named by value.
    pub fn endian(_endian: E) -> (r: Self)
        ensures
            r.inv(),
            r.records@ == Seq::<WriteRecord>::empty(),
            r.bits_written() == 0,
    {
        Self::new()
    }

    /// The number of bits recorded so far.
    pub fn written(&self) -> (r: u64)
        ensures
            r as nat == self.bits_written(),
    {
        self.bits
    }

    /// Replays every recorded write, in order, against another sink. The
    /// sink receives exactly the recorded bits, in its own bit order, and
    /// its count advances by exactly what this recorder reports.
    #[verifier::loop_isolation(false)]
    pub fn playback<W: BitWrite>(&self, w: &mut W) -> (r: Result<(), BitError>)
        requires
            self.inv(),
            old(w).inv(),
            old(w).bits_written() + self.bits_written() <= u64::MAX,
        ensures
            final(w).inv(),
            final(w).msb_order() == old(w).msb_order(),
            final(w).tracks_bits() == old(w).tracks_bits(),
            r is Ok,
            final(w).bits_written() == old(w).bits_written() + self.bits_written(),
            old(w).tracks_bits() ==> final(w).content() == old(w).content() + records_bits(
                old(w).msb_order(),
                self.records@,
            ),
    {
        let ghost recs = self.records@;
        let ghost wm = old(w).msb_order();
        let ghost orig_bw = old(w).bits_written();
        let ghost orig_content = old(w).content();
        proof {
            assert(recs.take(0) =~= Seq::<WriteRecord>::empty());
            assert(orig_content + records_bits(wm, recs.take(0)) =~= orig_content);
        }
        let mut i: usize = 0;
        while i < self.records.len()
            invariant
                w.inv(),
                w.msb_order() == wm,
                w.tracks_bits() == old(w).tracks_bits(),
                i <= recs.len(),
                w.bits_written() == orig_bw + records_len(recs.take(i as int)),
                old(w).tracks_bits() ==> w.content() == orig_content + records_bits(
                    wm,
                    recs.take(i as int),
                ),
            decreases recs.len() - i,
        {
            proof {
                lemma_records_len_split(recs, i + 1);
                lemma_records_len_split(recs.take(i + 1), i as int);
                assert(recs.take(i + 1).take(i as int) =~= recs.take(i as int));
                assert(recs.take(i + 1).skip(i as int) =~= seq![recs[i as int]]);
                assert(records_len(seq![recs[i as int]]) == record_len(recs[i as int])) by {
                    assert(seq![recs[i as int]].skip(1) =~= Seq::<WriteRecord>::empty());
                }
                assert(records_len(recs.take(i as int)) + record_len(recs[i as int])
                    <= records_len(recs));
                assert(record_wf(recs[i as int]));
            }
            let result: Result<(), BitError> = match &self.records[i] {
                WriteRecord::Bit(b) => w.write_bit(*b),
                WriteRecord::Unsigned { bits, value } => match &value.0 {
                    InnerUnsignedValue::U8(v) => w.write::<u8>(*bits, *v),
                    InnerUnsignedValue::U16(v) => w.write::<u16>(*bits, *v),
                    InnerUnsignedValue::U32(v) => w.write::<u32>(*bits, *v),
                    InnerUnsignedValue::U64(v) => w.write::<u64>(*bits, *v),
                    InnerUnsignedValue::I8(v) => w.write::<i8>(*bits, *v),
                    InnerUnsignedValue::I16(v) => w.write::<i16>(*bits, *v),
                    InnerUnsignedValue::I32(v) => w.write::<i32>(*bits, *v),
                    InnerUnsignedValue::I64(v) => w.write::<i64>(*bits, *v),
                },
                WriteRecord::Signed { bits, value } => match &value.0 {
                    InnerSignedValue::I8(v) => w.write_signed::<i8>(*bits, *v),
                    InnerSignedValue::I16(v) => w.write_signed::<i16>(*bits, *v),
                    InnerSignedValue::I32(v) => w.write_signed::<i32>(*bits, *v),
                    InnerSignedValue::I64(v) => w.write_signed::<i64>(*bits, *v),
                },
                WriteRecord::Unary0(v) => w.write_unary0(*v),
                WriteRecord::Unary1(v) => w.write_unary1(*v),
                WriteRecord::Bytes(bytes) => w.write_bytes(bytes.as_slice()),
            };
            proof {
                assert(result is Ok);
                lemma_records_push(wm, recs.take(i as int), recs[i as int]);
                assert(recs.take(i as int).push(recs[i as int]) =~= recs.take(i + 1));
                assert(w.bits_written() == orig_bw + records_len(recs.take(i + 1)));
                if old(w).tracks_bits() {
                    assert(w.content() =~= orig_content + records_bits(wm, recs.take(i + 1)));
                }
            }
            i = i + 1;
        }
        proof {
            assert(recs.take(recs.len() as int) =~= recs);
        }
        Ok(())
    }
}

impl<E: Endianness> BitWrite for BitRecorder<E> {
    open spec fn msb_order(&self) -> bool {
        E::msb_first()
    }

    open spec fn bits_written(&self) -> nat {
        self.bits as nat
    }

    open spec fn tracks_bits(&self) -> bool {
        true
    }

    open spec fn content(&self) -> Seq<bool> {
        records_bits(E::msb_first(), self.records@)
    }

    open spec fn inv(&self) -> bool {
        records_wf(self.records@) && self.bits as nat == records_len(self.records@)
    }

    proof fn lemma_content_len(&self) {
        lemma_records_bits_len(E::msb_first(), self.records@);
    }

    fn write_bit(&mut self, bit: bool) -> (r: Result<(), BitError>)
        ensures
            final(self).records@ == old(self).records@.push(WriteRecord::Bit(bit)),
    {
        self.records.push(WriteRecord::Bit(bit));
        self.bits = self.bits + 1;
        proof {
            lemma_records_push(E::msb_first(), old(self).records@, WriteRecord::Bit(bit));
        }
        Ok(())
    }

    fn write<U: Numeric>(&mut self, bits: u32, value: U) -> (r: Result<(), BitError>)
        ensures
            r is Ok ==> final(self).records@.len() == old(self).records@.len() + 1 && final(self).records@.take(old(self).records@.len() as int) == old(self).records@,
    {
        proof {
            U::lemma_width();
        }
        if bits > U::bits_size() {
            return Err(BitError::TooManyBits);
        }
        if bits < U::bits_size() {
            if !value.fits_field(bits) {
                return Err(BitError::ValueOutOfRange);
            }
        }
        let rec = WriteRecord::Unsigned { bits, value: value.unsigned_value() };
        proof {
            lemma_records_push(E::msb_first(), old(self).records@, rec);
        }
        self.records.push(rec);
        self.bits = self.bits + bits as u64;
        proof {
            assert(final(self).records@.take(old(self).records@.len() as int) =~= old(self).records@);
        }
        Ok(())
    }

    fn write_signed<S: SignedNumeric>(&mut self, bits: u32, value: S) -> (r: Result<
        (),
        BitError,
    >)
        ensures
            r is Ok ==> final(self).records@.len() == old(self).records@.len() + 1 && final(self).records@.take(old(self).records@.len() as int) == old(self).records@,
    {
        proof {
            S::lemma_width();
        }
        if bits > S::bits_size() {
            return Err(BitError::TooManyBits);
        }
        if !signed_fits(bits, value) {
            return Err(BitError::ValueOutOfRange);
        }
        let rec = WriteRecord::Signed { bits, value: value.signed_value() };
        proof {
            lemma_records_push(E::msb_first(), old(self).records@, rec);
        }
        self.records.push(rec);
        self.bits = self.bits + bits as u64;
        proof {
            assert(final(self).records@.take(old(self).records@.len() as int) =~= old(self).records@);
        }
        Ok(())
    }

    fn write_bytes(&mut self, buf: &[u8]) -> (r: Result<(), BitError>)
        ensures
            final(self).records@.len() == old(self).records@.len() + 1,
            final(self).records@.take(old(self).records@.len() as int) == old(self).records@,
    {
        let mut copy: Vec<u8> = Vec::new();
        let mut i: usize = 0;
        while i < buf.len()
            invariant
                i <= buf@.len(),
                copy@ == buf@.take(i as int),
            decreases buf@.len() - i,
        {
            copy.push(buf[i]);
            proof {
                assert(buf@.take(i as int).push(buf@[i as int]) =~= buf@.take(i + 1));
            }
            i = i + 1;
        }
        proof {
            assert(buf@.take(buf@.len() as int) =~= buf@);
        }
        let rec = WriteRecord::Bytes(copy);
        proof {
            lemma_records_push(E::msb_first(), old(self).records@, rec);
        }
        self.records.push(rec);
        self.bits = self.bits + (buf.len() as u64) * 8;
        proof {
            assert(final(self).records@.take(old(self).records@.len() as int) =~= old(self).records@);
        }
        Ok(())
    }

    fn write_unary0(&mut self, value: u32) -> (r: Result<(), BitError>)
        ensures
            final(self).records@ == old(self).records@.push(WriteRecord::Unary0(value)),
    {
        let rec = WriteRecord::Unary0(value);
        proof {
            lemma_records_push(E::msb_first(), old(self).records@, rec);
        }
        self.records.push(rec);
        self.bits = self.bits + value as u64 + 1;
        Ok(())
    }

    fn write_unary1(&mut self, value: u32) -> (r: Result<(), BitError>)
        ensures
            final(self).records@ == old(self).records@.push(WriteRecord::Unary1(value)),
    {
        let rec = WriteRecord::Unary1(value);
        proof {
            lemma_records_push(E::msb_first(), old(self).records@, rec);
        }
        self.records.push(rec);
        self.bits = self.bits + value as u64 + 1;
        Ok(())
    }

    fn byte_aligned(&self) -> (r: bool) {
        self.bits % 8 == 0
    }

    #[verifier::loop_isolation(false)]
    fn byte_align(&mut self) -> (r: Result<(), BitError>) {
        let ghost m = E::msb_first();
        let ghost orig = self.content();
        let ghost orig_bw = old(self).bits_written();
        let ghost pad = (8 - orig_bw % 8) % 8;
        proof {
            assert(orig + Seq::new(0, |j: int| false) =~= orig);
        }
        let mut i: u32 = 0;
        while self.bits % 8 != 0
            invariant
                self.inv(),
                i as nat <= pad,
                i == 0 ==> *self == *old(self),
                self.bits_written() == orig_bw + i,
                self.content() == orig + Seq::new(i as nat, |j: int| false),
            decreases pad - i,
        {
            proof {
                if i as nat == pad {
                    assert((orig_bw + pad) % 8 == 0) by {
                        vstd::arithmetic::div_mod::lemma_add_mod_noop(
                            orig_bw as int,
                            pad as int,
                            8,
                        );
                    }
                    assert(false);
                }
            }
            let ghost pre = self.content();
            let rec = WriteRecord::Bit(false);
            proof {
                lemma_records_push(m, self.records@, rec);
            }
            self.records.push(rec);
            self.bits = self.bits + 1;
            proof {
                assert(self.content() =~= orig + Seq::new((i + 1) as nat, |j: int| false));
            }
            i = i + 1;
        }
        proof {
            assert((orig_bw + i) % 8 == 0);
            if i as nat != pad {
                vstd::arithmetic::div_mod::lemma_add_mod_noop(orig_bw as int, i as int, 8);
                vstd::arithmetic::div_mod::lemma_add_mod_noop(orig_bw as int, pad as int, 8);
                assert(false);
            }
        }
        Ok(())
    }
}

} // verus!
