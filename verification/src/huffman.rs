//! The decode-table and code-sequence interfaces of the Huffman
//! collaborator.
//!
//! Compiling a code into these shapes is another component's job; the
//! reader and writer only walk them. A read table is indexed by the
//! accumulator state; each entry either ends with a symbol and the
//! accumulator contents to resume from, or asks for one more byte. A
//! write code is the sequence of `(bit count, bit pattern)` segments to
//! emit for one symbol.

use vstd::prelude::*;

use crate::BitError;
use crate::bitseq::lemma_bytes_bits_len;
use crate::bitseq::lemma_stream_bits_len;
use crate::bitseq::stream_bits;
use crate::write::BitWrite;

verus! {

broadcast use lemma_stream_bits_len, lemma_bytes_bits_len;

use vstd::arithmetic::power2::pow2;

/// One node of a compiled decode table.
pub enum ReadHuffmanTree<T> {
    /// A terminal: the decoded symbol, then the accumulator value and bit
    /// count to resume reading with.
    Done(T, u8, u32),
    /// Fetch one more byte and continue in this 256-entry table, indexed
    /// by that byte.
    Continue(Vec<ReadHuffmanTree<T>>),
    /// A state that no valid walk reaches.
    InvalidState,
}

/// What walking a decode table from a given node yields.
pub enum HuffmanWalk<T> {
    /// A symbol was found after consuming bytes up to `pos`, leaving the
    /// accumulator holding the low `bits` bits of `value`.
    Found {
        /// The decoded symbol.
        symbol: T,
        /// The accumulator contents to resume with.
        value: u8,
        /// How many accumulator bits to resume with.
        bits: u32,
        /// The byte position after the walk.
        pos: int,
    },
    /// The stream ended before a terminal was reached.
    OutOfData,
    /// The table is malformed: a node no valid compiler emits.
    BadTable,
}

/// The walk a reader performs from `node`, consuming one byte per
/// `Continue` step.
pub open spec fn walk<T>(node: ReadHuffmanTree<T>, data: Seq<u8>, pos: int) -> HuffmanWalk<T>
    decreases data.len() - pos,
{
    match node {
        ReadHuffmanTree::Done(symbol, value, bits) => {
            // a decode step consumes at least one bit, so a valid terminal
            // resumes with a strict partial byte
            if bits < 8 && (value as nat) < pow2(bits as nat) && (bits == 0 || pos > 0) {
                HuffmanWalk::Found { symbol, value, bits, pos }
            } else {
                HuffmanWalk::BadTable
            }
        },
        ReadHuffmanTree::InvalidState => HuffmanWalk::BadTable,
        ReadHuffmanTree::Continue(sub) => {
            if pos < 0 || pos >= data.len() {
                HuffmanWalk::OutOfData
            } else if sub@.len() != 256 {
                HuffmanWalk::BadTable
            } else {
                walk(sub@[data[pos] as int], data, pos + 1)
            }
        },
    }
}

/// One symbol's write code: the bit segments to emit, in order. Each
/// segment must fit its declared width.
pub open spec fn code_wf(code: Seq<(u32, u64)>) -> bool {
    forall|i: int|
        0 <= i < code.len() ==> (#[trigger] code[i]).0 <= 64 && (code[i].1 as nat) < pow2(
            code[i].0 as nat,
        )
}

/// The total bit length of a write code.
pub open spec fn code_len(code: Seq<(u32, u64)>) -> nat
    decreases code.len(),
{
    if code.len() == 0 {
        0
    } else {
        code[0].0 as nat + code_len(code.skip(1))
    }
}

/// The bits a write code emits, in the given bit order.
pub open spec fn code_bits(msb: bool, code: Seq<(u32, u64)>) -> Seq<bool>
    decreases code.len(),
{
    if code.len() == 0 {
        Seq::empty()
    } else {
        stream_bits(msb, code[0].1 as nat, code[0].0 as nat) + code_bits(msb, code.skip(1))
    }
}

/// A write code emits exactly its total length in bits.
pub broadcast proof fn lemma_code_bits_len(msb: bool, code: Seq<(u32, u64)>)
    ensures
        (#[trigger] code_bits(msb, code)).len() == code_len(code),
    decreases code.len(),
{
    if code.len() > 0 {
        lemma_code_bits_len(msb, code.skip(1));
    }
}

/// Appending a segment appends its bits and adds its width.
pub proof fn lemma_code_push(msb: bool, code: Seq<(u32, u64)>, seg: (u32, u64))
    ensures
        code_bits(msb, code.push(seg)) == code_bits(msb, code) + stream_bits(
            msb,
            seg.1 as nat,
            seg.0 as nat,
        ),
        code_len(code.push(seg)) == code_len(code) + seg.0,
    decreases code.len(),
{
    if code.len() == 0 {
        assert(code.push(seg).skip(1) =~= Seq::<(u32, u64)>::empty());
        assert(code.push(seg)[0] == seg);
        assert(code_bits(msb, Seq::<(u32, u64)>::empty()) == Seq::<bool>::empty());
        assert(code_len(Seq::<(u32, u64)>::empty()) == 0);
        assert(stream_bits(msb, seg.1 as nat, seg.0 as nat) + Seq::<bool>::empty()
            =~= Seq::<bool>::empty() + stream_bits(msb, seg.1 as nat, seg.0 as nat));
    } else {
        assert(code.push(seg).skip(1) =~= code.skip(1).push(seg));
        assert(code.push(seg)[0] == code[0]);
        lemma_code_push(msb, code.skip(1), seg);
        assert(stream_bits(msb, code[0].1 as nat, code[0].0 as nat) + (code_bits(
            msb,
            code.skip(1),
        ) + stream_bits(msb, seg.1 as nat, seg.0 as nat)) =~= (stream_bits(
            msb,
            code[0].1 as nat,
            code[0].0 as nat,
        ) + code_bits(msb, code.skip(1))) + stream_bits(msb, seg.1 as nat, seg.0 as nat));
    }
}

/// The total length splits wherever the code splits.
pub proof fn lemma_code_len_split(code: Seq<(u32, u64)>, i: int)
    requires
        0 <= i <= code.len(),
    ensures
        code_len(code) == code_len(code.take(i)) + code_len(code.skip(i)),
    decreases i,
{
    if i == 0 {
        assert(code.take(0) =~= Seq::<(u32, u64)>::empty());
        assert(code.skip(0) =~= code);
    } else {
        lemma_code_len_split(code.skip(1), i - 1);
        assert(code.skip(1).take(i - 1) =~= code.take(i).skip(1));
        assert(code.skip(1).skip(i - 1) =~= code.skip(i));
        assert(code.take(i)[0] == code[0]);
        assert(code.take(i).len() > 0);
    }
}

/// Writes one symbol's code — its `(bit count, bit pattern)` segments, as
/// the encode table hands them out — to any sink, segment by segment.
#[verifier::loop_isolation(false)]
pub fn write_huffman<W: BitWrite>(w: &mut W, code: &Vec<(u32, u64)>) -> (r: Result<(), BitError>)
    requires
        old(w).inv(),
        code_wf(code@),
        old(w).bits_written() + code_len(code@) <= u64::MAX,
    ensures
        final(w).inv(),
        final(w).msb_order() == old(w).msb_order(),
        final(w).tracks_bits() == old(w).tracks_bits(),
        r is Ok,
        final(w).bits_written() == old(w).bits_written() + code_len(code@),
        old(w).tracks_bits() ==> final(w).content() == old(w).content() + code_bits(
            old(w).msb_order(),
            code@,
        ),
    {
    let ghost wm = old(w).msb_order();
    let ghost orig_bw = old(w).bits_written();
    let ghost orig_content = old(w).content();
    proof {
        assert(code@.take(0) =~= Seq::<(u32, u64)>::empty());
        assert(orig_content + code_bits(wm, code@.take(0)) =~= orig_content);
    }
    let mut i: usize = 0;
    while i < code.len()
        invariant
            w.inv(),
            w.msb_order() == wm,
            w.tracks_bits() == old(w).tracks_bits(),
            i <= code@.len(),
            w.bits_written() == orig_bw + code_len(code@.take(i as int)),
            old(w).tracks_bits() ==> w.content() == orig_content + code_bits(
                wm,
                code@.take(i as int),
            ),
        decreases code@.len() - i,
    {
        let (bits, value) = code[i];
        proof {
            lemma_code_len_split(code@, i + 1);
            lemma_code_len_split(code@.take(i + 1), i as int);
            assert(code@.take(i + 1).take(i as int) =~= code@.take(i as int));
            assert(code@.take(i + 1).skip(i as int) =~= seq![code@[i as int]]);
            assert(code_len(seq![code@[i as int]]) == code@[i as int].0) by {
                assert(seq![code@[i as int]].skip(1) =~= Seq::<(u32, u64)>::empty());
            }
            assert(code@[i as int].0 <= 64 && (code@[i as int].1 as nat) < pow2(
                code@[i as int].0 as nat,
            ));
        }
        let result = w.write::<u64>(bits, value);
        proof {
            assert(result is Ok);
            // the segment fits its width, so keeping the low bits is a no-op
            vstd::arithmetic::power2::lemma_pow2_pos(code@[i as int].0 as nat);
            vstd::arithmetic::div_mod::lemma_small_mod(
                code@[i as int].1 as nat,
                pow2(code@[i as int].0 as nat),
            );
            lemma_code_push(wm, code@.take(i as int), code@[i as int]);
            assert(code@.take(i as int).push(code@[i as int]) =~= code@.take(i + 1));
        }
        i = i + 1;
    }
    proof {
        assert(code@.take(code@.len() as int) =~= code@);
    }
    Ok(())
}

} // verus!
