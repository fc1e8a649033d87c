//! Reading bit fields from a byte buffer.
//!
//! A [`BitReader`] walks a byte buffer bit by bit in the bit order `E`,
//! buffering at most one partial byte in a small accumulator. Its abstract
//! view is [`BitReader::remaining`], the sequence of bits not yet consumed;
//! every read takes a prefix of that sequence and says which value those
//! bits denote.

use vstd::prelude::*;

use crate::BitError;
use crate::Endianness;
use crate::bitqueue::BitQueue;
use crate::bitseq::bytes_bits;
use crate::bitseq::lemma_bytes_bits_len;
use crate::bitseq::lemma_bytes_bits_skip;
use crate::bitseq::lemma_stream_bits_len;
use crate::bitseq::lemma_stream_bits_of_val;
use crate::bitseq::lemma_stream_bits_single;
use crate::bitseq::stream_bits;
use crate::bitseq::stream_val;
use crate::huffman::HuffmanWalk;
use crate::huffman::ReadHuffmanTree;
use crate::huffman::walk;
use crate::numeric::Numeric;
use crate::numeric::SignedNumeric;
use crate::numeric::twos_complement;

verus! {

broadcast use lemma_stream_bits_len, lemma_bytes_bits_len;

use vstd::arithmetic::power2::pow2;
use vstd::arithmetic::power2::lemma_pow2_adds;
use vstd::arithmetic::power2::lemma2_to64;
use vstd::arithmetic::power2::lemma2_to64_rest;
use vstd::arithmetic::div_mod::lemma_fundamental_div_mod;


/// Where a bit-level seek is measured from.
#[derive(Clone, Copy, Debug, PartialEq, Eq, Structural)]
pub enum SeekFrom {
    /// An absolute bit offset from the start of the stream.
    Start(u64),
    /// A bit offset subtracted from the total bit length of the stream.
    End(i64),
    /// A signed bit offset from the current position.
    Current(i64),
}

/// Reads bit fields of arbitrary width from an owned byte buffer, in the
/// bit order `E`, buffering at most one partial byte.
pub struct BitReader<E: Endianness> {
    /// The bytes being read.
    pub data: Vec<u8>,
    /// The index of the next byte to fetch from `data`.
    pub pos: usize,
    /// Bits fetched from the buffer but not yet handed to the caller.
    pub bitqueue: BitQueue<E>,
}

impl<E: Endianness> Clone for BitReader<E> {
    /// A duplicate carries the same bytes, the same byte position and the
    /// same pending accumulator state, so the two readers go on
    /// independently from the identical logical bit position.
    #[verifier::loop_isolation(false)]
    fn clone(&self) -> (r: Self)
        ensures
            r.data@ == self.data@,
            r.pos == self.pos,
            r.bitqueue == self.bitqueue,
            r.remaining() == self.remaining(),
            r.spec_position() == self.spec_position(),
            r.wf() == self.wf(),
    {
        let mut data: Vec<u8> = Vec::new();
        let mut i: usize = 0;
        while i < self.data.len()
            invariant
                i <= self.data@.len(),
                data@ == self.data@.take(i as int),
            decreases self.data@.len() - i,
        {
            data.push(self.data[i]);
            proof {
                assert(self.data@.take(i as int).push(self.data@[i as int]) =~= self.data@.take(
                    i + 1,
                ));
            }
            i = i + 1;
        }
        proof {
            assert(self.data@.take(self.data@.len() as int) =~= self.data@);
        }
        BitReader { data, pos: self.pos, bitqueue: self.bitqueue.clone() }
    }
}

impl<E: Endianness> BitReader<E> {
    /// The reader's invariant: an 8-bit accumulator holding a strict
    /// partial byte and a position inside the buffer, with the whole buffer
    /// addressable in bits as a `u64`. Keeping the accumulator below 8 bits
    /// pins the split between buffered bits and buffer position: ending an
    /// operation byte-aligned means ending with an empty accumulator.
    pub open spec fn wf(self) -> bool {
        &&& self.bitqueue.wf()
        &&& self.bitqueue.width == 8
        &&& self.bitqueue@.len() < 8
        &&& self.pos <= self.data@.len()
        &&& self.bitqueue@.len() <= 8 * self.pos
        &&& 8 * self.data@.len() <= u64::MAX
    }

    /// The bits not yet consumed: the buffered partial byte, then the bits
    /// of the bytes not yet fetched.
    pub open spec fn remaining(self) -> Seq<bool> {
        self.bitqueue@ + bytes_bits(E::msb_first(), self.data@.skip(self.pos as int))
    }

    /// The stream position in bits: bits fetched minus bits still buffered.
    pub open spec fn spec_position(self) -> int {
        8 * self.pos - self.bitqueue@.len()
    }

    /// A reader over the given bytes, starting at the first bit.
    pub fn new(data: Vec<u8>) -> (r: Self)
        requires
            8 * data@.len() <= u64::MAX,
        ensures
            r.wf(),
            r.data@ == data@,
            r.remaining() == bytes_bits(E::msb_first(), data@),
            r.spec_position() == 0,
    {
        let r = BitReader { data, pos: 0, bitqueue: BitQueue::new(8) };
        proof {
            assert(r.data@.skip(0) =~= r.data@);
            assert(r.remaining() =~= bytes_bits(E::msb_first(), r.data@));
        }
        r
    }

    /// A reader over the given bytes, with the bit order named by value.
    pub fn endian(data: Vec<u8>, _endian: E) -> (r: Self)
        requires
            8 * data@.len() <= u64::MAX,
        ensures
            r.wf(),
            r.data@ == data@,
            r.remaining() == bytes_bits(E::msb_first(), data@),
            r.spec_position() == 0,
    {
        Self::new(data)
    }

    /// Gives the byte buffer back, discarding any buffered partial bits.
    pub fn into_reader(self) -> (r: Vec<u8>)
        ensures
            r@ == self.data@,
    {
        self.data
    }

    /// The buffered partial byte as a `(bit count, value)` pair.
    pub fn into_unread(self) -> (r: (u32, u8))
        requires
            self.wf(),
        ensures
            r.0 as nat == self.bitqueue@.len(),
            r.1 as nat == stream_val(E::msb_first(), self.bitqueue@),
    {
        let bits = self.bitqueue.len();
        let value = self.bitqueue.value();
        proof {
            lemma2_to64();
            crate::bitseq::lemma_pow2_le(self.bitqueue@.len(), 8);
        }
        (bits, value as u8)
    }

    /// True if no partial byte is buffered.
    pub fn byte_aligned(&self) -> (r: bool)
        ensures
            r == (self.bitqueue@.len() == 0),
    {
        self.bitqueue.is_empty()
    }

    /// Discards any buffered partial bits, so that reading resumes at the
    /// next whole byte. Reading nothing when already aligned.
    pub fn byte_align(&mut self)
        requires
            old(self).wf(),
        ensures
            final(self).wf(),
            final(self).data@ == old(self).data@,
            final(self).pos == old(self).pos,
            final(self).remaining() == old(self).remaining().skip(
                old(self).bitqueue@.len() as int,
            ),
            final(self).spec_position() == old(self).spec_position() + old(self).bitqueue@.len(),
            final(self).spec_position() % 8 == 0,
            old(self).bitqueue@.len() == 0 ==> *final(self) == *old(self),
    {
        self.bitqueue.clear();
        proof {
            vstd::arithmetic::div_mod::lemma_mod_multiples_basic(self.pos as int, 8);
            if old(self).bitqueue@.len() == 0 {
                assert(pow2(0) == 1) by {
                    lemma2_to64();
                }
                assert(old(self).bitqueue.value == 0);
                assert(old(self).bitqueue.bits == 0);
            }
            assert(final(self).remaining() =~= old(self).remaining().skip(
                old(self).bitqueue@.len() as int,
            ));
            if old(self).bitqueue@.len() == 0 {
                assert(old(self).remaining().skip(0) =~= old(self).remaining());
            }
        }
    }

    /// Reads one bit. Fails with [`BitError::UnexpectedEnd`], changing
    /// nothing, when no bits remain.
    pub fn read_bit(&mut self) -> (r: Result<bool, BitError>)
        requires
            old(self).wf(),
        ensures
            final(self).wf(),
            final(self).data@ == old(self).data@,
            r is Ok <==> old(self).remaining().len() > 0,
            r is Ok ==> r->Ok_0 == old(self).remaining()[0] && final(self).remaining() == old(self).remaining().skip(1) && final(self).spec_position() == old(self).spec_position() + 1,
            r is Err ==> *final(self) == *old(self) && r->Err_0 == BitError::UnexpectedEnd,
    {
        let ghost m = E::msb_first();
        if self.bitqueue.is_empty() {
            if self.pos >= self.data.len() {
                proof {
                    assert(self.data@.skip(self.pos as int) =~= Seq::<u8>::empty());
                    assert(old(self).remaining().len() == 0);
                }
                return Err(BitError::UnexpectedEnd);
            }
            let byte = self.data[self.pos];
            proof {
                lemma2_to64();
                lemma_bytes_bits_skip(m, self.data@, self.pos as int);
            }
            self.pos = self.pos + 1;
            self.bitqueue.set(byte as u64, 8);
            proof {
                assert(self.remaining() =~= old(self).remaining());
            }
        }
        let ghost mid = *self;
        proof {
            assert(self.remaining() == old(self).remaining());
            assert(self.bitqueue@.len() > 0);
        }
        let b = self.bitqueue.pop(1);
        proof {
            lemma_stream_bits_single(m, b as nat);
            lemma2_to64();
            assert(mid.bitqueue@.take(1) =~= seq![mid.remaining()[0]]);
            assert(final(self).remaining() =~= mid.remaining().skip(1));
        }
        Ok(b == 1)
    }

    /// Reads `bits` bits (at most 64) as a raw bit pattern. The result is
    /// the value whose `bits`-bit encoding, in this bit order, is the prefix
    /// of the remaining stream. Fails with [`BitError::UnexpectedEnd`],
    /// changing nothing, when fewer than `bits` bits remain.
    #[verifier::loop_isolation(false)]
    #[verifier::rlimit(60)]
    pub fn read_bits(&mut self, bits: u32) -> (r: Result<u64, BitError>)
        requires
            old(self).wf(),
            bits <= 64,
        ensures
            final(self).wf(),
            final(self).data@ == old(self).data@,
            r is Ok <==> bits as nat <= old(self).remaining().len(),
            r is Ok ==> (r->Ok_0 as nat) < pow2(bits as nat) && stream_bits(
                E::msb_first(),
                r->Ok_0 as nat,
                bits as nat,
            ) == old(self).remaining().take(bits as int) && r->Ok_0 as nat == stream_val(
                E::msb_first(),
                old(self).remaining().take(bits as int),
            ) && final(self).remaining() == old(self).remaining().skip(bits as int) && final(self).spec_position() == old(self).spec_position() + bits,
            r is Err ==> *final(self) == *old(self) && r->Err_0 == BitError::UnexpectedEnd,
    {
        let ghost m = E::msb_first();
        let ghost orig = old(self).remaining();
        let qlen = self.bitqueue.len();
        if bits <= qlen {
            let v = self.bitqueue.pop(bits);
            proof {
                assert(old(self).bitqueue@.take(bits as int) =~= orig.take(bits as int));
                assert(final(self).remaining() =~= orig.skip(bits as int));
            }
            return Ok(v);
        }
        let needed_bits = bits - qlen;
        // how many bytes must be fetched: the whole ones, plus one more if a
        // partial byte is needed
        let whole = needed_bits / 8;
        let part = needed_bits % 8;
        let needed_bytes = whole + if part > 0 {
            1u32
        } else {
            0u32
        };
        proof {
            lemma_fundamental_div_mod(needed_bits as int, 8);
        }
        if (needed_bytes as usize) > self.data.len() - self.pos {
            proof {
                assert(orig.len() == qlen + 8 * (old(self).data@.len() - old(self).pos));
                assert(orig.len() < bits);
            }
            return Err(BitError::UnexpectedEnd);
        }
        let mut acc = BitQueue::<E>::new(64);
        let first = self.bitqueue.pop_all();
        proof {
            assert(old(self).bitqueue@.len() == qlen);
        }
        acc.push(qlen, first);
        proof {
            assert(acc@ =~= old(self).bitqueue@);
            assert(orig =~= acc@ + self.remaining());
        }
        let mut i: u32 = 0;
        while i < whole
            invariant
                self.wf(),
                acc.wf(),
                acc.width == 64,
                self.data@ == old(self).data@,
                self.bitqueue@.len() == 0,
                i <= whole,
                qlen + 8 * whole + part == bits,
                part < 8,
                self.pos == old(self).pos + i,
                self.pos + (whole - i) + (if part > 0 {
                    1int
                } else {
                    0int
                }) <= self.data@.len(),
                acc@.len() == qlen + 8 * i,
                orig == acc@ + self.remaining(),
            decreases whole - i,
        {
            let byte = self.data[self.pos];
            proof {
                lemma2_to64();
                lemma_bytes_bits_skip(m, self.data@, self.pos as int);
                assert(self.bitqueue@ =~= Seq::<bool>::empty());
                assert(self.remaining() =~= bytes_bits(m, self.data@.skip(self.pos as int)));
            }
            let ghost pre_rem = self.remaining();
            acc.push(8, byte as u64);
            self.pos = self.pos + 1;
            proof {
                assert(self.remaining() =~= bytes_bits(m, self.data@.skip(self.pos as int)));
                assert(pre_rem == stream_bits(m, self.data@[self.pos - 1] as nat, 8)
                    + self.remaining());
                assert(orig =~= acc@ + self.remaining());
            }
            i = i + 1;
        }
        if part > 0 {
            let byte = self.data[self.pos];
            proof {
                lemma2_to64();
                lemma_bytes_bits_skip(m, self.data@, self.pos as int);
                assert(self.bitqueue@ =~= Seq::<bool>::empty());
                assert(self.remaining() =~= bytes_bits(m, self.data@.skip(self.pos as int)));
            }
            let ghost pre_acc = acc@;
            let ghost pre_rem = self.remaining();
            self.pos = self.pos + 1;
            self.bitqueue.set(byte as u64, 8);
            proof {
                assert(self.remaining() =~= stream_bits(m, byte as nat, 8) + bytes_bits(
                    m,
                    self.data@.skip(self.pos as int),
                ));
                assert(self.remaining() == pre_rem);
            }
            let ghost mid = *self;
            let head = self.bitqueue.pop(part);
            proof {
                assert(mid.bitqueue@.take(part as int) =~= pre_rem.take(part as int));
            }
            acc.push(part, head);
            proof {
                assert(final(self).remaining() =~= mid.remaining().skip(part as int));
                assert(acc@ =~= pre_acc + pre_rem.take(part as int));
                assert(orig =~= acc@ + self.remaining());
            }
        }
        proof {
            assert(acc@.len() == bits);
        }
        let v = acc.value();
        proof {
            lemma_stream_bits_of_val(m, acc@);
            assert(orig.take(bits as int) =~= acc@);
            assert(orig.skip(bits as int) =~= self.remaining());
        }
        Ok(v)
    }

    /// Reads a `bits`-wide unsigned field into `U`. Fails with
    /// [`BitError::TooManyBits`] if `bits` exceeds the width of `U`, and
    /// with [`BitError::UnexpectedEnd`] if fewer than `bits` bits remain;
    /// either failure changes nothing.
    pub fn read<U: Numeric>(&mut self, bits: u32) -> (r: Result<U, BitError>)
        requires
            old(self).wf(),
        ensures
            final(self).wf(),
            final(self).data@ == old(self).data@,
            r is Ok <==> bits <= U::width() && bits as nat <= old(self).remaining().len(),
            bits > U::width() ==> r is Err && r->Err_0 == BitError::TooManyBits,
            bits <= U::width() && bits as nat > old(self).remaining().len() ==> r is Err
                && r->Err_0 == BitError::UnexpectedEnd,
            r is Err ==> *final(self) == *old(self),
            r is Ok ==> stream_bits(E::msb_first(), r->Ok_0.as_pattern() as nat, bits as nat)
                == old(self).remaining().take(bits as int) && r->Ok_0.as_pattern() as nat
                == stream_val(E::msb_first(), old(self).remaining().take(bits as int)) && final(self).remaining() == old(self).remaining().skip(bits as int) && final(self).spec_position() == old(self).spec_position() + bits,
    {
        proof {
            U::lemma_width();
        }
        if bits > U::bits_size() {
            return Err(BitError::TooManyBits);
        }
        let v = match self.read_bits(bits) {
            Ok(v) => v,
            Err(e) => {
                return Err(e);
            },
        };
        proof {
            crate::bitseq::lemma_pow2_le(bits as nat, U::width() as nat);
        }
        Ok(U::from_pattern(v))
    }

    /// Reads a `bits`-wide two's-complement signed field into `S`; the sign
    /// bit and magnitude come off the stream in the order this bit order
    /// prescribes. A zero-bit signed field is not meaningful, so `bits`
    /// must be at least 1.
    pub fn read_signed<S: SignedNumeric>(&mut self, bits: u32) -> (r: Result<S, BitError>)
        requires
            old(self).wf(),
            bits >= 1,
        ensures
            final(self).wf(),
            final(self).data@ == old(self).data@,
            r is Ok <==> bits <= S::width() && bits as nat <= old(self).remaining().len(),
            bits > S::width() ==> r is Err && r->Err_0 == BitError::TooManyBits,
            bits <= S::width() && bits as nat > old(self).remaining().len() ==> r is Err
                && r->Err_0 == BitError::UnexpectedEnd,
            r is Err ==> *final(self) == *old(self),
            r is Ok ==> r->Ok_0.as_signed() == twos_complement(
                stream_val(E::msb_first(), old(self).remaining().take(bits as int)),
                bits as nat,
            ) && final(self).remaining() == old(self).remaining().skip(bits as int) && final(self).spec_position() == old(self).spec_position() + bits,
    {
        proof {
            S::lemma_width();
        }
        if bits > S::bits_size() {
            return Err(BitError::TooManyBits);
        }
        let width = S::bits_size();
        let u = match self.read_bits(bits) {
            Ok(u) => u,
            Err(e) => {
                return Err(e);
            },
        };
        let half = 1u64 << (bits - 1);
        proof {
            crate::bitqueue::lemma_u64_shl1((bits - 1) as u32);
            lemma_pow2_adds((bits - 1) as nat, 1);
            lemma2_to64();
            lemma2_to64_rest();
            crate::bitseq::lemma_pow2_le(bits as nat, width as nat);
            crate::bitseq::lemma_pow2_le(width as nat, 64);
            crate::bitseq::lemma_pow2_le((bits - 1) as nat, (width - 1) as nat);
            lemma_pow2_adds((width - 1) as nat, 1);
        }
        let p: u64;
        if u >= half && bits < width {
            // sign-extend the pattern to the full width of `S`
            proof {
                crate::bitqueue::lemma_u64_shl1((width - bits) as u32);
            }
            let high = (1u64 << (width - bits)) - 1;
            proof {
                lemma_pow2_adds((width - bits) as nat, bits as nat);
                assert((pow2((width - bits) as nat) - 1) * pow2(bits as nat) == pow2(
                    width as nat,
                ) - pow2(bits as nat)) by (nonlinear_arith)
                    requires
                        pow2((width - bits) as nat) * pow2(bits as nat) == pow2(width as nat),
                ;
                vstd::bits::lemma_u64_shl_is_mul(high, bits as u64);
            }
            let ext = high << bits;
            p = u + ext;
        } else {
            p = u;
        }
        let s = S::from_pattern(p);
        proof {
            s.lemma_signed();
            let sv = s.as_signed();
            let uval = u as nat;
            if u >= half {
                // the sign bit is set: the pattern lies in the negative range
                assert(p >= pow2((width - 1) as nat));
                if sv >= 0 {
                    assert(s.as_pattern() == sv);
                    assert(false);
                }
                assert(sv == p - pow2(width as nat));
                assert(sv == uval - pow2(bits as nat));
            } else {
                if sv < 0 {
                    assert(s.as_pattern() as int == sv + pow2(width as nat));
                    assert(s.as_pattern() >= pow2((width - 1) as nat));
                    assert(false);
                }
                assert(sv == uval);
            }
        }
        Ok(s)
    }

    /// Skips `bits` bits without interpreting them. Fails with
    /// [`BitError::UnexpectedEnd`], changing nothing, when fewer than
    /// `bits` bits remain.
    #[verifier::loop_isolation(false)]
    pub fn skip(&mut self, bits: u32) -> (r: Result<(), BitError>)
        requires
            old(self).wf(),
        ensures
            final(self).wf(),
            final(self).data@ == old(self).data@,
            r is Ok <==> bits as nat <= old(self).remaining().len(),
            r is Ok ==> final(self).remaining() == old(self).remaining().skip(bits as int)
                && final(self).spec_position() == old(self).spec_position() + bits,
            r is Err ==> *final(self) == *old(self) && r->Err_0 == BitError::UnexpectedEnd,
    {
        let ghost m = E::msb_first();
        let ghost orig = old(self).remaining();
        let qlen = self.bitqueue.len();
        if bits <= qlen {
            self.bitqueue.drop(bits);
            proof {
                assert(final(self).remaining() =~= orig.skip(bits as int));
            }
            return Ok(());
        }
        let needed_bits = bits - qlen;
        let whole = needed_bits / 8;
        let part = needed_bits % 8;
        let needed_bytes = whole + if part > 0 {
            1u32
        } else {
            0u32
        };
        proof {
            lemma_fundamental_div_mod(needed_bits as int, 8);
        }
        if (needed_bytes as usize) > self.data.len() - self.pos {
            proof {
                assert(orig.len() < bits);
            }
            return Err(BitError::UnexpectedEnd);
        }
        self.bitqueue.clear();
        proof {
            assert(self.remaining() =~= orig.skip(qlen as int));
            crate::bitseq::lemma_bytes_bits_split(m, self.data@.skip(self.pos as int), whole as int);
            assert(self.data@.skip(self.pos as int).skip(whole as int) =~= self.data@.skip(
                self.pos + whole as int,
            ));
        }
        self.pos = self.pos + whole as usize;
        proof {
            assert(self.remaining() =~= orig.skip(qlen + 8 * whole));
        }
        if part > 0 {
            let byte = self.data[self.pos];
            proof {
                lemma2_to64();
                lemma_bytes_bits_skip(m, self.data@, self.pos as int);
                assert(self.bitqueue@ =~= Seq::<bool>::empty());
                assert(self.remaining() =~= bytes_bits(m, self.data@.skip(self.pos as int)));
            }
            let ghost pre_rem = self.remaining();
            self.pos = self.pos + 1;
            self.bitqueue.set(byte as u64, 8);
            proof {
                assert(self.remaining() =~= stream_bits(m, byte as nat, 8) + bytes_bits(
                    m,
                    self.data@.skip(self.pos as int),
                ));
                assert(self.remaining() == pre_rem);
            }
            let ghost mid = *self;
            self.bitqueue.drop(part);
            proof {
                assert(final(self).remaining() =~= mid.remaining().skip(part as int));
            }
        }
        proof {
            assert(final(self).remaining() =~= orig.skip(bits as int));
        }
        Ok(())
    }

    /// Reads `n` whole bytes into a fresh vector, going bit by bit across
    /// any misalignment. Fails with [`BitError::UnexpectedEnd`], changing
    /// nothing, when fewer than `8 * n` bits remain.
    #[verifier::loop_isolation(false)]
    pub fn read_to_vec(&mut self, n: usize) -> (r: Result<Vec<u8>, BitError>)
        requires
            old(self).wf(),
        ensures
            final(self).wf(),
            final(self).data@ == old(self).data@,
            r is Ok <==> 8 * n <= old(self).remaining().len(),
            r is Ok ==> r->Ok_0@.len() == n && bytes_bits(E::msb_first(), r->Ok_0@) == old(self).remaining().take(8 * n as int) && final(self).remaining() == old(self).remaining().skip(8 * n as int) && final(self).spec_position() == old(self).spec_position() + 8 * n,
            r is Err ==> *final(self) == *old(self) && r->Err_0 == BitError::UnexpectedEnd,
    {
        let ghost m = E::msb_first();
        let ghost orig = old(self).remaining();
        // the remaining bits span at most one partial byte plus the bytes
        // left in the buffer, so more bytes than that cannot be served
        let avail = self.data.len() - self.pos;
        if n > avail {
            let qlen = self.bitqueue.len();
            if n - avail > 1 || qlen < 8 {
                proof {
                    assert(orig.len() < 8 * n);
                }
                return Err(BitError::UnexpectedEnd);
            }
        }
        proof {
            assert(8 * n <= orig.len());
        }
        let mut out: Vec<u8> = Vec::new();
        proof {
            assert(out@ =~= Seq::<u8>::empty());
            assert(bytes_bits(m, out@) =~= orig.take(0));
            assert(orig.skip(0) =~= orig);
        }
        let mut i: usize = 0;
        while i < n
            invariant
                self.wf(),
                self.data@ == old(self).data@,
                i <= n,
                out@.len() == i,
                bytes_bits(m, out@) == orig.take(8 * i as int),
                self.remaining() == orig.skip(8 * i as int),
                self.spec_position() == old(self).spec_position() + 8 * i,
            decreases n - i,
        {
            let ghost pre_out = out@;
            let v = match self.read_bits(8) {
                Ok(v) => v,
                Err(_) => {
                    proof {
                        assert(false);
                    }
                    return Err(BitError::UnexpectedEnd);
                },
            };
            proof {
                lemma2_to64();
            }
            out.push(v as u8);
            proof {
                crate::bitseq::lemma_bytes_bits_push(m, pre_out, v as u8);
                assert(orig.skip(8 * i as int).take(8) =~= orig.take(8 * (i + 1) as int).skip(
                    8 * i as int,
                ));
                assert(bytes_bits(m, out@) =~= orig.take(8 * (i + 1) as int));
                assert(orig.skip(8 * i as int).skip(8) =~= orig.skip(8 * (i + 1) as int));
            }
            i = i + 1;
        }
        Ok(out)
    }

    /// Counts the run of 1 bits before the next 0 bit, consuming the run
    /// and its 0 terminator. Fails with [`BitError::UnexpectedEnd`], with
    /// the stream fully consumed, when every remaining bit is 1. The count
    /// is a `u32`, so the leading run must be short enough to fit it; the
    /// rest of the stream may be arbitrarily long.
    #[verifier::loop_isolation(false)]
    pub fn read_unary0(&mut self) -> (r: Result<u32, BitError>)
        requires
            old(self).wf(),
            old(self).remaining().len() < 0x1_0000_0000 || (exists|i: int|
                0 <= i < old(self).remaining().len() && i < 0x1_0000_0000 && !(#[trigger] old(
                    self,
                ).remaining()[i])),
        ensures
            final(self).wf(),
            final(self).data@ == old(self).data@,
            r is Ok <==> exists|i: int|
                0 <= i < old(self).remaining().len() && !old(self).remaining()[i],
            r is Ok ==> r->Ok_0 < old(self).remaining().len() && (forall|j: int|
                0 <= j < r->Ok_0 ==> old(self).remaining()[j]) && !old(self).remaining()[r->Ok_0 as int]
                && final(self).remaining() == old(self).remaining().skip(r->Ok_0 + 1) && final(self).spec_position() == old(self).spec_position() + r->Ok_0 + 1,
            r is Err ==> r->Err_0 == BitError::UnexpectedEnd && final(self).remaining().len() == 0,
    {
        let ghost orig = old(self).remaining();
        let mut count: u32 = 0;
        loop
            invariant
                self.wf(),
                self.data@ == old(self).data@,
                count as nat <= orig.len(),
                self.remaining() == orig.skip(count as int),
                self.spec_position() == old(self).spec_position() + count,
                forall|j: int| 0 <= j < count ==> orig[j],
            decreases orig.len() - count,
        {
            match self.read_bit() {
                Err(_) => {
                    proof {
                        assert(orig.skip(count as int).len() == 0);
                        assert forall|i: int|
                            0 <= i < orig.len() implies orig[i] by {
                        }
                    }
                    return Err(BitError::UnexpectedEnd);
                },
                Ok(true) => {
                    count = count + 1;
                },
                Ok(false) => {
                    proof {
                        assert(!orig[count as int]);
                    }
                    return Ok(count);
                },
            }
        }
    }

    /// Counts the run of 0 bits before the next 1 bit, consuming the run
    /// and its 1 terminator. Fails with [`BitError::UnexpectedEnd`], with
    /// the stream fully consumed, when every remaining bit is 0. The count
    /// is a `u32`, so the leading run must be short enough to fit it; the
    /// rest of the stream may be arbitrarily long.
    #[verifier::loop_isolation(false)]
    pub fn read_unary1(&mut self) -> (r: Result<u32, BitError>)
        requires
            old(self).wf(),
            old(self).remaining().len() < 0x1_0000_0000 || (exists|i: int|
                0 <= i < old(self).remaining().len() && i < 0x1_0000_0000 && (#[trigger] old(
                    self,
                ).remaining()[i])),
        ensures
            final(self).wf(),
            final(self).data@ == old(self).data@,
            r is Ok <==> exists|i: int|
                0 <= i < old(self).remaining().len() && old(self).remaining()[i],
            r is Ok ==> r->Ok_0 < old(self).remaining().len() && (forall|j: int|
                0 <= j < r->Ok_0 ==> !old(self).remaining()[j]) && old(self).remaining()[r->Ok_0 as int]
                && final(self).remaining() == old(self).remaining().skip(r->Ok_0 + 1) && final(self).spec_position() == old(self).spec_position() + r->Ok_0 + 1,
            r is Err ==> r->Err_0 == BitError::UnexpectedEnd && final(self).remaining().len() == 0,
    {
        let ghost orig = old(self).remaining();
        let mut count: u32 = 0;
        loop
            invariant
                self.wf(),
                self.data@ == old(self).data@,
                count as nat <= orig.len(),
                self.remaining() == orig.skip(count as int),
                self.spec_position() == old(self).spec_position() + count,
                forall|j: int| 0 <= j < count ==> !orig[j],
            decreases orig.len() - count,
        {
            match self.read_bit() {
                Err(_) => {
                    proof {
                        assert(orig.skip(count as int).len() == 0);
                        assert forall|i: int|
                            0 <= i < orig.len() implies !orig[i] by {
                        }
                    }
                    return Err(BitError::UnexpectedEnd);
                },
                Ok(false) => {
                    count = count + 1;
                },
                Ok(true) => {
                    proof {
                        assert(orig[count as int]);
                    }
                    return Ok(count);
                },
            }
        }
    }


    /// The absolute bit position a seek request resolves to.
    pub open spec fn seek_target(self, from: SeekFrom) -> int {
        match from {
            SeekFrom::Start(n) => n as int,
            SeekFrom::End(k) => 8 * self.data@.len() - k,
            SeekFrom::Current(k) => self.spec_position() + k,
        }
    }

    /// Seeks to an absolute bit position: the containing byte is addressed
    /// directly and the bit remainder inside it is dropped. A target before
    /// the start of the stream fails with [`BitError::InvalidOffset`], one
    /// past its end with [`BitError::UnexpectedEnd`]; either failure
    /// changes nothing.
    pub fn seek_bits(&mut self, from: SeekFrom) -> (r: Result<u64, BitError>)
        requires
            old(self).wf(),
        ensures
            final(self).wf(),
            final(self).data@ == old(self).data@,
            r is Ok <==> 0 <= old(self).seek_target(from) <= 8 * old(self).data@.len(),
            r is Ok ==> r->Ok_0 == old(self).seek_target(from) && final(self).spec_position()
                == old(self).seek_target(from) && final(self).remaining() == bytes_bits(
                E::msb_first(),
                old(self).data@,
            ).skip(old(self).seek_target(from)),
            r is Err ==> *final(self) == *old(self) && (old(self).seek_target(from) < 0 ==> r->Err_0
                == BitError::InvalidOffset) && (old(self).seek_target(from) > 8 * old(
                self,
            ).data@.len() ==> r->Err_0 == BitError::UnexpectedEnd),
    {
        let ghost m = E::msb_first();
        let total: u64 = (self.data.len() as u64) * 8;
        let target: u64;
        match from {
            SeekFrom::Start(n) => {
                if n > total {
                    return Err(BitError::UnexpectedEnd);
                }
                target = n;
            },
            SeekFrom::End(k) => {
                if k < 0 {
                    return Err(BitError::UnexpectedEnd);
                }
                if (k as u64) > total {
                    return Err(BitError::InvalidOffset);
                }
                target = total - (k as u64);
            },
            SeekFrom::Current(k) => {
                let posn = self.position_in_bits();
                if k >= 0 {
                    if (k as u64) > total - posn {
                        return Err(BitError::UnexpectedEnd);
                    }
                    target = posn + (k as u64);
                } else {
                    let mag: u64 = if k == i64::MIN {
                        0x8000_0000_0000_0000u64
                    } else {
                        (-k) as u64
                    };
                    if mag > posn {
                        return Err(BitError::InvalidOffset);
                    }
                    target = posn - mag;
                }
            },
        }
        let q = (target / 8) as usize;
        let rbits = (target % 8) as u32;
        proof {
            vstd::arithmetic::div_mod::lemma_fundamental_div_mod(target as int, 8);
            crate::bitseq::lemma_bytes_bits_split(m, self.data@, q as int);
        }
        self.pos = q;
        self.bitqueue.clear();
        if rbits > 0 {
            proof {
                lemma_bytes_bits_skip(m, self.data@, q as int);
            }
            let byte = self.data[self.pos];
            proof {
                lemma2_to64();
            }
            self.pos = self.pos + 1;
            self.bitqueue.set(byte as u64, 8);
            let ghost mid = *self;
            self.bitqueue.drop(rbits);
            proof {
                assert(final(self).remaining() =~= bytes_bits(m, old(self).data@).skip(
                    target as int,
                ));
            }
        } else {
            proof {
                assert(final(self).remaining() =~= bytes_bits(m, old(self).data@).skip(
                    target as int,
                ));
            }
        }
        Ok(target)
    }


    /// The accumulator state as a decode-table index: `2^bits + value`.
    pub open spec fn spec_state(self) -> int {
        pow2(self.bitqueue.bits as nat) + self.bitqueue.value
    }

    /// Reads one Huffman-coded symbol by walking a compiled decode table:
    /// the accumulator state indexes the table, and each continuation
    /// consumes one byte. The outcome — the symbol with the accumulator
    /// contents to resume from, the stream's end, or a malformed table —
    /// is exactly what [`walk`] says of the starting state.
    #[verifier::loop_isolation(false)]
    pub fn read_huffman<T: Copy>(&mut self, tree: &Vec<ReadHuffmanTree<T>>) -> (r: Result<
        T,
        BitError,
    >)
        requires
            old(self).wf(),
            tree@.len() == 512,
        ensures
            final(self).wf(),
            final(self).data@ == old(self).data@,
            (match walk(
                tree@[old(self).spec_state()],
                old(self).data@,
                old(self).pos as int,
            ) {
                HuffmanWalk::Found { symbol, value, bits, pos } => r is Ok && r->Ok_0 == symbol
                    && final(self).pos == pos && final(self).bitqueue@ == stream_bits(
                    E::msb_first(),
                    value as nat,
                    bits as nat,
                ),
                HuffmanWalk::OutOfData => r is Err && r->Err_0 == BitError::UnexpectedEnd,
                HuffmanWalk::BadTable => r is Err && r->Err_0 == BitError::InvalidTable,
            }),
    {
        proof {
            lemma2_to64();
        }
        let idx = self.bitqueue.to_state();
        let ghost target = walk(tree@[idx as int], old(self).data@, old(self).pos as int);
        let mut node: &ReadHuffmanTree<T> = &tree[idx];
        loop
            invariant
                self.wf(),
                self.data@ == old(self).data@,
                self.bitqueue == old(self).bitqueue,
                old(self).pos <= self.pos <= self.data@.len(),
                walk(*node, self.data@, self.pos as int) == target,
            decreases self.data@.len() - self.pos,
        {
            match node {
                ReadHuffmanTree::Done(symbol, value, bits) => {
                    let b = *bits;
                    let v = *value;
                    if b >= 8 {
                        return Err(BitError::InvalidTable);
                    }
                    proof {
                        crate::bitqueue::lemma_u64_shl1(b);
                    }
                    if (v as u64) >= (1u64 << b) {
                        return Err(BitError::InvalidTable);
                    }
                    if b > 0 && self.pos == 0 {
                        return Err(BitError::InvalidTable);
                    }
                    self.bitqueue.set(v as u64, b);
                    return Ok(*symbol);
                },
                ReadHuffmanTree::InvalidState => {
                    return Err(BitError::InvalidTable);
                },
                ReadHuffmanTree::Continue(sub) => {
                    if self.pos >= self.data.len() {
                        return Err(BitError::UnexpectedEnd);
                    }
                    if sub.len() != 256 {
                        return Err(BitError::InvalidTable);
                    }
                    let byte = self.data[self.pos];
                    self.pos = self.pos + 1;
                    node = &sub[byte as usize];
                },
            }
        }
    }

    /// The stream position in bits: bits consumed from the start of the
    /// buffer, counting a buffered partial byte as not yet consumed.
    pub fn position_in_bits(&self) -> (r: u64)
        requires
            self.wf(),
        ensures
            r == self.spec_position(),
    {
        (self.pos as u64) * 8 - self.bitqueue.len() as u64
    }
}

} // verus!
