//! The mathematical model of a bit stream.
//!
//! A stream is a `Seq<bool>` whose first element is the first bit read or
//! written. An `n`-bit integer field appears on the stream either most
//! significant bit first ([`msb_bits`]) or least significant bit first
//! ([`lsb_bits`]); [`stream_bits`] selects between the two, and
//! [`stream_val`] recovers the field's value from its bits. The lemmas here
//! say that the two are inverse to each other, how an encoding splits into
//! a high and a low part, and how a byte sequence expands into bits.

use vstd::prelude::*;

verus! {

use vstd::arithmetic::power2::pow2;
use vstd::arithmetic::power2::lemma_pow2_adds;
use vstd::arithmetic::power2::lemma_pow2_pos;
use vstd::arithmetic::power2::lemma_pow2_unfold;
use vstd::arithmetic::div_mod::lemma_fundamental_div_mod;
use vstd::arithmetic::div_mod::lemma_fundamental_div_mod_converse_div;
use vstd::arithmetic::div_mod::lemma_fundamental_div_mod_converse_mod;
use vstd::arithmetic::mul::lemma_mul_is_associative;
use vstd::arithmetic::mul::lemma_mul_is_distributive_add;

/// The low `n` bits of `v`, least significant first: element 0 is the 1s bit.
pub open spec fn lsb_bits(v: nat, n: nat) -> Seq<bool>
    decreases n,
{
    if n == 0 {
        Seq::empty()
    } else {
        seq![v % 2 == 1] + lsb_bits(v / 2, (n - 1) as nat)
    }
}

/// The low `n` bits of `v`, most significant first: element 0 is the 2^(n-1) bit.
pub open spec fn msb_bits(v: nat, n: nat) -> Seq<bool>
    decreases n,
{
    if n == 0 {
        Seq::empty()
    } else {
        msb_bits(v / 2, (n - 1) as nat).push(v % 2 == 1)
    }
}

/// The `n`-bit encoding of `v` in the given bit order.
pub open spec fn stream_bits(msb: bool, v: nat, n: nat) -> Seq<bool> {
    if msb {
        msb_bits(v, n)
    } else {
        lsb_bits(v, n)
    }
}

/// The value of a bit sequence whose first element is the 1s bit.
pub open spec fn lsb_val(s: Seq<bool>) -> nat
    decreases s.len(),
{
    if s.len() == 0 {
        0
    } else {
        (if s[0] {
            1nat
        } else {
            0nat
        }) + 2 * lsb_val(s.skip(1))
    }
}

/// The value of a bit sequence whose first element is the most significant bit.
pub open spec fn msb_val(s: Seq<bool>) -> nat
    decreases s.len(),
{
    if s.len() == 0 {
        0
    } else {
        2 * msb_val(s.drop_last()) + (if s.last() {
            1nat
        } else {
            0nat
        })
    }
}

/// The value of a bit sequence read in the given bit order.
pub open spec fn stream_val(msb: bool, s: Seq<bool>) -> nat {
    if msb {
        msb_val(s)
    } else {
        lsb_val(s)
    }
}

/// The bits of a whole byte sequence, each byte expanded in the given order.
pub open spec fn bytes_bits(msb: bool, s: Seq<u8>) -> Seq<bool>
    decreases s.len(),
{
    if s.len() == 0 {
        Seq::empty()
    } else {
        stream_bits(msb, s[0] as nat, 8) + bytes_bits(msb, s.skip(1))
    }
}

/// An encoding has exactly as many bits as asked for.
pub broadcast proof fn lemma_stream_bits_len(msb: bool, v: nat, n: nat)
    ensures
        (#[trigger] stream_bits(msb, v, n)).len() == n,
    decreases n,
{
    if n > 0 {
        lemma_stream_bits_len(msb, v / 2, (n - 1) as nat);
    }
}

/// Splitting `a + b * 2^m` at the 1s bit: quotient and remainder by 2.
proof fn lemma_low_bit_split(a: nat, b: nat, m: nat)
    requires
        m >= 1,
    ensures
        (a + b * pow2(m)) % 2 == a % 2,
        (a + b * pow2(m)) / 2 == a / 2 + b * pow2((m - 1) as nat),
{
    let p = pow2((m - 1) as nat);
    lemma_pow2_unfold(m);
    assert(b * (2 * p) == 2 * (b * p)) by {
        lemma_mul_is_associative(b as int, 2, p as int);
        lemma_mul_is_associative(2, b as int, p as int);
    }
    lemma_fundamental_div_mod(a as int, 2);
    assert(a + b * pow2(m) == (a / 2 + b * p) * 2 + a % 2) by {
        lemma_mul_is_distributive_add(2, a as int / 2, (b * p) as int);
    }
    lemma_fundamental_div_mod_converse_div(
        (a + b * pow2(m)) as int,
        2,
        (a / 2 + b * p) as int,
        (a % 2) as int,
    );
    lemma_fundamental_div_mod_converse_mod(
        (a + b * pow2(m)) as int,
        2,
        (a / 2 + b * p) as int,
        (a % 2) as int,
    );
}

/// A low part below `2^m` and a high part stacked above it encode as the
/// low part's bits followed by the high part's bits, least significant first.
pub proof fn lemma_lsb_bits_concat(a: nat, b: nat, m: nat, n: nat)
    requires
        a < pow2(m),
    ensures
        lsb_bits(a + b * pow2(m), m + n) == lsb_bits(a, m) + lsb_bits(b, n),
    decreases m,
{
    lemma_stream_bits_len(false, a, m);
    lemma_stream_bits_len(false, b, n);
    if m == 0 {
        assert(pow2(0) == 1) by {
            vstd::arithmetic::power2::lemma2_to64();
        }
        assert(a == 0);
        assert(lsb_bits(0 + b * 1, 0 + n) =~= lsb_bits(a, 0) + lsb_bits(b, n));
    } else {
        let v = a + b * pow2(m);
        lemma_low_bit_split(a, b, m);
        lemma_pow2_pos((m - 1) as nat);
        lemma_pow2_unfold(m);
        assert(a / 2 < pow2((m - 1) as nat));
        lemma_lsb_bits_concat(a / 2, b, (m - 1) as nat, n);
        assert(lsb_bits(v, m + n) == seq![a % 2 == 1] + (lsb_bits(a / 2, (m - 1) as nat) + lsb_bits(
            b,
            n,
        )));
        assert(seq![a % 2 == 1] + (lsb_bits(a / 2, (m - 1) as nat) + lsb_bits(b, n)) =~= (seq![
            a % 2 == 1,
        ] + lsb_bits(a / 2, (m - 1) as nat)) + lsb_bits(b, n));
    }
}

/// A high part and a low part below `2^n` stacked under it encode as the
/// high part's bits followed by the low part's bits, most significant first.
pub proof fn lemma_msb_bits_concat(a: nat, b: nat, m: nat, n: nat)
    requires
        b < pow2(n),
    ensures
        msb_bits(a * pow2(n) + b, m + n) == msb_bits(a, m) + msb_bits(b, n),
    decreases n,
{
    lemma_stream_bits_len(true, a, m);
    lemma_stream_bits_len(true, b, n);
    if n == 0 {
        assert(pow2(0) == 1) by {
            vstd::arithmetic::power2::lemma2_to64();
        }
        assert(b == 0);
        assert(a * 1 == a);
        assert(msb_bits(a, m + 0) =~= msb_bits(a, m) + msb_bits(b, 0));
    } else {
        let v = a * pow2(n) + b;
        assert(v == b + a * pow2(n));
        lemma_low_bit_split(b, a, n);
        lemma_pow2_pos((n - 1) as nat);
        lemma_pow2_unfold(n);
        assert(b / 2 < pow2((n - 1) as nat));
        lemma_msb_bits_concat(a, b / 2, m, (n - 1) as nat);
        assert(v / 2 == a * pow2((n - 1) as nat) + b / 2);
        assert(msb_bits(v, m + n) == (msb_bits(a, m) + msb_bits(b / 2, (n - 1) as nat)).push(
            b % 2 == 1,
        ));
        assert((msb_bits(a, m) + msb_bits(b / 2, (n - 1) as nat)).push(b % 2 == 1) =~= msb_bits(
            a,
            m,
        ) + msb_bits(b / 2, (n - 1) as nat).push(b % 2 == 1));
    }
}

/// Reading an encoding back gives the encoded value, reduced to its low `n` bits.
pub proof fn lemma_stream_val_of_bits(msb: bool, v: nat, n: nat)
    ensures
        stream_val(msb, stream_bits(msb, v, n)) == v % pow2(n),
    decreases n,
{
    lemma_pow2_pos(n);
    if n == 0 {
        assert(pow2(0) == 1) by {
            vstd::arithmetic::power2::lemma2_to64();
        }
    } else {
        lemma_stream_bits_len(msb, v / 2, (n - 1) as nat);
        lemma_stream_val_of_bits(msb, v / 2, (n - 1) as nat);
        lemma_pow2_unfold(n);
        lemma_pow2_pos((n - 1) as nat);
        let p = pow2((n - 1) as nat);
        // v % 2^n == 2 * ((v / 2) % 2^(n-1)) + v % 2
        assert(v % (2 * p) == 2 * ((v / 2) % p) + v % 2) by {
            vstd::arithmetic::div_mod::lemma_breakdown(v as int, 2, p as int);
        }
        if msb {
            let s = msb_bits(v, n);
            assert(s.drop_last() =~= msb_bits(v / 2, (n - 1) as nat));
            assert(s.last() == (v % 2 == 1));
        } else {
            let s = lsb_bits(v, n);
            assert(s.skip(1) =~= lsb_bits(v / 2, (n - 1) as nat));
            assert(s[0] == (v % 2 == 1));
        }
    }
}

/// Every bit sequence is the encoding of its own value, which fits in its length.
pub proof fn lemma_stream_bits_of_val(msb: bool, s: Seq<bool>)
    ensures
        stream_val(msb, s) < pow2(s.len()),
        stream_bits(msb, stream_val(msb, s), s.len()) == s,
    decreases s.len(),
{
    lemma_pow2_pos(s.len());
    if s.len() == 0 {
        assert(pow2(0) == 1) by {
            vstd::arithmetic::power2::lemma2_to64();
        }
        assert(stream_bits(msb, 0, 0) =~= s);
    } else {
        lemma_pow2_unfold(s.len());
        let p = pow2((s.len() - 1) as nat);
        if msb {
            let r = msb_val(s.drop_last());
            let v = 2 * r + (if s.last() {
                1nat
            } else {
                0nat
            });
            lemma_stream_bits_of_val(msb, s.drop_last());
            assert(v / 2 == r && v % 2 == (if s.last() {
                1int
            } else {
                0int
            })) by {
                lemma_fundamental_div_mod_converse_div(
                    v as int,
                    2,
                    r as int,
                    if s.last() {
                        1int
                    } else {
                        0int
                    },
                );
                lemma_fundamental_div_mod_converse_mod(
                    v as int,
                    2,
                    r as int,
                    if s.last() {
                        1int
                    } else {
                        0int
                    },
                );
            }
            assert(msb_bits(v, s.len()) == msb_bits(r, (s.len() - 1) as nat).push(s.last()));
            assert(msb_bits(r, (s.len() - 1) as nat).push(s.last()) =~= s);
        } else {
            let r = lsb_val(s.skip(1));
            let v = (if s[0] {
                1nat
            } else {
                0nat
            }) + 2 * r;
            lemma_stream_bits_of_val(msb, s.skip(1));
            assert(v / 2 == r && v % 2 == (if s[0] {
                1int
            } else {
                0int
            })) by {
                lemma_fundamental_div_mod_converse_div(
                    v as int,
                    2,
                    r as int,
                    if s[0] {
                        1int
                    } else {
                        0int
                    },
                );
                lemma_fundamental_div_mod_converse_mod(
                    v as int,
                    2,
                    r as int,
                    if s[0] {
                        1int
                    } else {
                        0int
                    },
                );
            }
            assert(lsb_bits(v, s.len()) == seq![s[0]] + lsb_bits(r, (s.len() - 1) as nat));
            assert(seq![s[0]] + lsb_bits(r, (s.len() - 1) as nat) =~= s);
        }
    }
}

/// Two values below `2^n` with the same `n`-bit encoding are equal.
pub proof fn lemma_stream_bits_injective(msb: bool, a: nat, b: nat, n: nat)
    requires
        a < pow2(n),
        b < pow2(n),
        stream_bits(msb, a, n) == stream_bits(msb, b, n),
    ensures
        a == b,
{
    lemma_stream_val_of_bits(msb, a, n);
    lemma_stream_val_of_bits(msb, b, n);
    vstd::arithmetic::div_mod::lemma_small_mod(a, pow2(n));
    vstd::arithmetic::div_mod::lemma_small_mod(b, pow2(n));
}

/// The all-zero value encodes as all-false bits, in either order.
pub proof fn lemma_stream_bits_zero(msb: bool, n: nat)
    ensures
        stream_bits(msb, 0, n) == Seq::new(n, |i: int| false),
    decreases n,
{
    lemma_stream_bits_len(msb, 0, n);
    if n > 0 {
        lemma_stream_bits_zero(msb, (n - 1) as nat);
        if msb {
            assert(msb_bits(0, n) =~= Seq::new(n, |i: int| false));
        } else {
            assert(lsb_bits(0, n) =~= Seq::new(n, |i: int| false));
        }
    } else {
        assert(stream_bits(msb, 0, 0) =~= Seq::new(0, |i: int| false));
    }
}

/// The value `2^n - 1` encodes as all-true bits, in either order.
pub proof fn lemma_stream_bits_ones(msb: bool, n: nat)
    ensures
        stream_bits(msb, (pow2(n) - 1) as nat, n) == Seq::new(n, |i: int| true),
    decreases n,
{
    lemma_stream_bits_len(msb, (pow2(n) - 1) as nat, n);
    lemma_pow2_pos(n);
    if n > 0 {
        let v = (pow2(n) - 1) as nat;
        lemma_pow2_unfold(n);
        lemma_pow2_pos((n - 1) as nat);
        let p = pow2((n - 1) as nat);
        // v == 2p - 1 == (p - 1) * 2 + 1
        assert(v == (p - 1) * 2 + 1);
        assert(v / 2 == p - 1 && v % 2 == 1) by {
            lemma_fundamental_div_mod_converse_div(v as int, 2, p as int - 1, 1);
            lemma_fundamental_div_mod_converse_mod(v as int, 2, p as int - 1, 1);
        }
        lemma_stream_bits_ones(msb, (n - 1) as nat);
        if msb {
            assert(msb_bits(v, n) =~= Seq::new(n, |i: int| true));
        } else {
            assert(lsb_bits(v, n) =~= Seq::new(n, |i: int| true));
        }
    } else {
        assert(pow2(0) == 1) by {
            vstd::arithmetic::power2::lemma2_to64();
        }
        assert(stream_bits(msb, 0, 0) =~= Seq::new(0, |i: int| true));
    }
}

/// A byte sequence expands to eight bits per byte.
pub broadcast proof fn lemma_bytes_bits_len(msb: bool, s: Seq<u8>)
    ensures
        (#[trigger] bytes_bits(msb, s)).len() == 8 * s.len(),
    decreases s.len(),
{
    if s.len() > 0 {
        lemma_stream_bits_len(msb, s[0] as nat, 8);
        lemma_bytes_bits_len(msb, s.skip(1));
    }
}

/// Appending a byte appends its eight bits.
pub proof fn lemma_bytes_bits_push(msb: bool, s: Seq<u8>, b: u8)
    ensures
        bytes_bits(msb, s.push(b)) == bytes_bits(msb, s) + stream_bits(msb, b as nat, 8),
    decreases s.len(),
{
    if s.len() == 0 {
        assert(s.push(b).skip(1) =~= Seq::<u8>::empty());
        assert(s.push(b)[0] == b);
        assert(bytes_bits(msb, s.push(b)) == stream_bits(msb, b as nat, 8) + bytes_bits(
            msb,
            Seq::<u8>::empty(),
        ));
        assert(stream_bits(msb, b as nat, 8) + Seq::<bool>::empty() =~= Seq::<bool>::empty()
            + stream_bits(msb, b as nat, 8));
    } else {
        assert(s.push(b).skip(1) =~= s.skip(1).push(b));
        lemma_bytes_bits_push(msb, s.skip(1), b);
        assert(bytes_bits(msb, s.push(b)) == stream_bits(msb, s[0] as nat, 8) + (bytes_bits(
            msb,
            s.skip(1),
        ) + stream_bits(msb, b as nat, 8)));
        assert(stream_bits(msb, s[0] as nat, 8) + (bytes_bits(msb, s.skip(1)) + stream_bits(
            msb,
            b as nat,
            8,
        )) =~= (stream_bits(msb, s[0] as nat, 8) + bytes_bits(msb, s.skip(1))) + stream_bits(
            msb,
            b as nat,
            8,
        ));
    }
}

/// A byte sequence's bits split where the bytes split.
pub proof fn lemma_bytes_bits_split(msb: bool, s: Seq<u8>, k: int)
    requires
        0 <= k <= s.len(),
    ensures
        bytes_bits(msb, s) == bytes_bits(msb, s.take(k)) + bytes_bits(msb, s.skip(k)),
    decreases k,
{
    lemma_bytes_bits_len(msb, s);
    if k == 0 {
        assert(s.take(0) =~= Seq::<u8>::empty());
        assert(s.skip(0) =~= s);
        assert(bytes_bits(msb, s.take(0)) + bytes_bits(msb, s) =~= bytes_bits(msb, s));
    } else {
        lemma_bytes_bits_split(msb, s.skip(1), k - 1);
        assert(s.skip(1).take(k - 1) =~= s.take(k).skip(1));
        assert(s.skip(1).skip(k - 1) =~= s.skip(k));
        assert(s.take(k)[0] == s[0]);
        assert(s.take(k).len() > 0);
        assert(bytes_bits(msb, s.take(k)) == stream_bits(msb, s[0] as nat, 8) + bytes_bits(
            msb,
            s.take(k).skip(1),
        ));
        assert(stream_bits(msb, s[0] as nat, 8) + (bytes_bits(msb, s.take(k).skip(1)) + bytes_bits(
            msb,
            s.skip(k),
        )) =~= (stream_bits(msb, s[0] as nat, 8) + bytes_bits(msb, s.take(k).skip(1)))
            + bytes_bits(msb, s.skip(k)));
    }
}

/// The bits of the bytes from position `i` on start with the bits of byte `i`.
pub proof fn lemma_bytes_bits_skip(msb: bool, s: Seq<u8>, i: int)
    requires
        0 <= i < s.len(),
    ensures
        bytes_bits(msb, s.skip(i)) == stream_bits(msb, s[i] as nat, 8) + bytes_bits(
            msb,
            s.skip(i + 1),
        ),
{
    assert(s.skip(i).len() > 0);
    assert(s.skip(i)[0] == s[i]);
    assert(s.skip(i).skip(1) =~= s.skip(i + 1));
}

/// Powers of two are monotone in the exponent.
pub proof fn lemma_pow2_le(e1: nat, e2: nat)
    requires
        e1 <= e2,
    ensures
        pow2(e1) <= pow2(e2),
{
    if e1 < e2 {
        vstd::arithmetic::power2::lemma_pow2_strictly_increases(e1, e2);
    }
}

/// A one-bit encoding is the value's lowest bit, in either order.
pub proof fn lemma_stream_bits_single(msb: bool, v: nat)
    ensures
        stream_bits(msb, v, 1) == seq![v % 2 == 1],
{
    assert(msb_bits(v / 2, 0) == Seq::<bool>::empty());
    assert(lsb_bits(v / 2, 0) == Seq::<bool>::empty());
    assert(msb_bits(v, 1) =~= seq![v % 2 == 1]);
    assert(lsb_bits(v, 1) =~= seq![v % 2 == 1]);
}

/// A value below `2^m` stacked with a value below `2^n` fits in `2^(m + n)`.
pub proof fn lemma_stack_bound(a: nat, b: nat, m: nat, n: nat)
    requires
        a < pow2(m),
        b < pow2(n),
    ensures
        a * pow2(n) + b < pow2(m + n),
{
    lemma_pow2_adds(m, n);
    lemma_pow2_pos(n);
    assert(a * pow2(n) + b < pow2(m) * pow2(n)) by (nonlinear_arith)
        requires
            a < pow2(m),
            b < pow2(n),
            pow2(n) > 0,
    ;
}

} // verus!
