//! The laws tying the writer and the reader together.
//!
//! A writer's contract appends a field's encoding to the written stream;
//! a reader's contract takes a prefix of the remaining stream and returns
//! the value it encodes. The proofs here close the loop: reading a field
//! back from its own encoding yields the value written, whatever the bit
//! order, and leaves the rest of the stream untouched.

use vstd::prelude::*;

use crate::bitseq::lemma_stream_bits_len;
use crate::bitseq::lemma_bytes_bits_len;
use crate::bitseq::lemma_stream_val_of_bits;
use crate::bitseq::stream_bits;
use crate::bitseq::stream_val;
use crate::numeric::signed_field;
use crate::numeric::twos_complement;

verus! {

broadcast use lemma_stream_bits_len, lemma_bytes_bits_len;

use vstd::arithmetic::power2::pow2;
use vstd::arithmetic::power2::lemma_pow2_adds;
use vstd::arithmetic::power2::lemma_pow2_pos;
use vstd::arithmetic::power2::lemma2_to64;
use vstd::arithmetic::div_mod::lemma_small_mod;

/// Law: round trip of an unsigned field. For every bit order, every width
/// `n`, and every value below `2^n`, a stream that starts with the field's
/// encoding — which is exactly what writing the field puts there — reads
/// back as that value, and consuming the field leaves the rest of the
/// stream as it was.
pub proof fn lemma_unsigned_round_trip(msb: bool, v: nat, n: nat, rest: Seq<bool>)
    requires
        v < pow2(n),
    ensures
        (stream_bits(msb, v, n) + rest).take(n as int) == stream_bits(msb, v, n),
        stream_val(msb, (stream_bits(msb, v, n) + rest).take(n as int)) == v,
        (stream_bits(msb, v, n) + rest).skip(n as int) == rest,
{
    lemma_pow2_pos(n);
    assert((stream_bits(msb, v, n) + rest).take(n as int) =~= stream_bits(msb, v, n));
    assert((stream_bits(msb, v, n) + rest).skip(n as int) =~= rest);
    lemma_stream_val_of_bits(msb, v, n);
    lemma_small_mod(v, pow2(n));
}

/// Law: a signed value and its two's-complement field determine each
/// other. Encoding a value of `[-2^(n-1), 2^(n-1))` into its `n`-bit field
/// and interpreting that field back yields the same value, and the field
/// fits in `n` bits.
pub proof fn lemma_signed_field_round_trip(value: int, n: nat)
    requires
        1 <= n,
        -(pow2((n - 1) as nat) as int) <= value < pow2((n - 1) as nat),
    ensures
        signed_field(value, n) < pow2(n),
        twos_complement(signed_field(value, n), n) == value,
{
    lemma_pow2_pos(n);
    lemma_pow2_pos((n - 1) as nat);
    lemma_pow2_adds((n - 1) as nat, 1);
    assert(pow2(1) == 2) by {
        lemma2_to64();
    }
}

/// Law: round trip of a signed field. For every bit order, every width
/// `n >= 1`, and every value in `[-2^(n-1), 2^(n-1))`, a stream that
/// starts with the value's two's-complement field — which is exactly what
/// writing the value puts there — reads back as that value, and consuming
/// the field leaves the rest of the stream as it was.
pub proof fn lemma_signed_round_trip(msb: bool, value: int, n: nat, rest: Seq<bool>)
    requires
        1 <= n,
        -(pow2((n - 1) as nat) as int) <= value < pow2((n - 1) as nat),
    ensures
        (stream_bits(msb, signed_field(value, n), n) + rest).take(n as int) == stream_bits(
            msb,
            signed_field(value, n),
            n,
        ),
        twos_complement(
            stream_val(msb, (stream_bits(msb, signed_field(value, n), n) + rest).take(n as int)),
            n,
        ) == value,
        (stream_bits(msb, signed_field(value, n), n) + rest).skip(n as int) == rest,
{
    lemma_signed_field_round_trip(value, n);
    lemma_unsigned_round_trip(msb, signed_field(value, n), n, rest);
}

/// The unary code for `value`: a run of `value` copies of `bit`, then a
/// single opposite terminator. This is what writing a unary field appends.
pub open spec fn unary_code(bit: bool, value: nat) -> Seq<bool> {
    Seq::new(value, |i: int| bit).push(!bit)
}

/// Law: round trip of a unary code. Writing a run of `value` copies of
/// `bit` with a single opposite terminator puts exactly that shape at the
/// head of the stream; a reader that counts the leading run of `bit` must
/// then report `value`, and consuming the run with its terminator leaves
/// the rest of the stream as it was.
pub proof fn lemma_unary_round_trip(bit: bool, value: nat, rest: Seq<bool>)
    ensures
        unary_code(bit, value) == Seq::new(value, |i: int| bit).push(!bit),
        (unary_code(bit, value) + rest).len() == value + 1 + rest.len(),
        forall|j: int| 0 <= j < value ==> #[trigger] (unary_code(bit, value) + rest)[j] == bit,
        (unary_code(bit, value) + rest)[value as int] == !bit,
        (unary_code(bit, value) + rest).skip(value as int + 1) == rest,
        forall|k: int|
            0 <= k < (unary_code(bit, value) + rest).len() && (forall|j: int|
                0 <= j < k ==> (unary_code(bit, value) + rest)[j] == bit) && #[trigger] (unary_code(
                bit,
                value,
            ) + rest)[k] == !bit ==> k == value,
{
    let s = unary_code(bit, value) + rest;
    assert(s.skip(value as int + 1) =~= rest);
    assert forall|k: int|
        0 <= k < s.len() && (forall|j: int| 0 <= j < k ==> s[j] == bit) && s[k]
            == !bit implies k == value by {
        if k < value {
            assert(s[k] == bit);
        }
        if k > value {
            assert(s[value as int] == bit);
        }
    }
}

} // verus!
