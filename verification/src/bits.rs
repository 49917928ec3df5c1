//! The mathematical model of bit streams.
//!
//! A byte sequence is viewed as a stream of bits, most significant bit
//! first; base32 symbols carry five consecutive bits of that stream. The
//! spec functions here say what a bit stream is worth as a number and how
//! byte sequences map to bit streams; the lemmas relate values of
//! concatenations and subranges, which is all the codec proofs need.

use vstd::prelude::*;
use vstd::arithmetic::power2::{
    pow2, lemma_pow2_unfold, lemma_pow2_adds, lemma_pow2_pos, lemma2_to64,
};
use vstd::arithmetic::div_mod::{
    lemma_div_denominator, lemma_fundamental_div_mod, lemma_fundamental_div_mod_converse_mod,
    lemma_fundamental_div_mod_converse_div,
};

verus! {

/// The `n` low-order bits of `v`, most significant first.
pub open spec fn num_bits(v: nat, n: nat) -> Seq<bool> {
    Seq::new(n, |i: int| (v / pow2((n - 1 - i) as nat)) % 2 == 1)
}

/// The value of a bit string read most-significant-bit first.
pub open spec fn bits_val(s: Seq<bool>) -> nat
    decreases s.len(),
{
    if s.len() == 0 {
        0
    } else {
        2 * bits_val(s.drop_last()) + (if s.last() {
            1nat
        } else {
            0nat
        })
    }
}

/// A run of `n` zero bits.
pub open spec fn zero_bits(n: nat) -> Seq<bool> {
    Seq::new(n, |i: int| false)
}

/// The bit stream of one byte.
pub open spec fn byte_bits(b: u8) -> Seq<bool> {
    num_bits(b as nat, 8)
}

/// The bit stream of a byte sequence: each byte contributes eight bits,
/// most significant first.
pub open spec fn bytes_bits(bs: Seq<u8>) -> Seq<bool>
    decreases bs.len(),
{
    if bs.len() == 0 {
        Seq::empty()
    } else {
        byte_bits(bs[0]) + bytes_bits(bs.drop_first())
    }
}

/// A bit string is worth less than `2^len`.
pub proof fn lemma_bits_val_bound(s: Seq<bool>)
    ensures
        bits_val(s) < pow2(s.len()),
    decreases s.len(),
{
    if s.len() == 0 {
        lemma2_to64();
    } else {
        lemma_bits_val_bound(s.drop_last());
        lemma_pow2_unfold(s.len());
    }
}

/// Concatenation shifts the left part up by the length of the right part.
pub proof fn lemma_bits_val_concat(a: Seq<bool>, b: Seq<bool>)
    ensures
        bits_val(a + b) == bits_val(a) * pow2(b.len()) + bits_val(b),
    decreases b.len(),
{
    if b.len() == 0 {
        assert(a + b =~= a);
        lemma2_to64();
        assert(pow2(b.len()) == 1);
        assert(bits_val(a) * 1 == bits_val(a));
        assert(bits_val(b) == 0);
    } else {
        let bl = b.drop_last();
        let l: nat = if b.last() {
            1
        } else {
            0
        };
        assert((a + b).drop_last() =~= a + bl);
        assert((a + b).last() == b.last());
        lemma_bits_val_concat(a, bl);
        lemma_pow2_unfold(b.len());
        assert(bits_val(a + b) == 2 * bits_val(a + bl) + l);
        assert(bits_val(b) == 2 * bits_val(bl) + l);
        assert(2 * (bits_val(a) * pow2(bl.len()) + bits_val(bl)) + l == bits_val(a) * pow2(b.len())
            + (2 * bits_val(bl) + l)) by (nonlinear_arith)
            requires
                pow2(b.len()) == 2 * pow2(bl.len()),
                bl.len() == b.len() - 1,
        ;
        assert(bits_val(a + b) == 2 * (bits_val(a) * pow2(bl.len()) + bits_val(bl)) + l);
    }
}

/// `num_bits` keeps exactly the value of `v` modulo `2^n`.
pub proof fn lemma_num_bits_val(v: nat, n: nat)
    ensures
        bits_val(num_bits(v, n)) == v % pow2(n),
    decreases n,
{
    if n == 0 {
        lemma2_to64();
    } else {
        lemma_num_bits_val(v / 2, (n - 1) as nat);
        assert forall|i: int| 0 <= i < n - 1 implies num_bits(v, n).drop_last()[i] == num_bits(
            v / 2,
            (n - 1) as nat,
        )[i] by {
            lemma_pow2_pos((n - 2 - i) as nat);
            lemma_div_denominator(v as int, 2, pow2((n - 2 - i) as nat) as int);
            lemma_pow2_unfold((n - 1 - i) as nat);
        }
        assert(num_bits(v, n).drop_last() =~= num_bits(v / 2, (n - 1) as nat));
        lemma2_to64();
        assert(num_bits(v, n).last() == ((v / pow2(0)) % 2 == 1));
        assert(v / pow2(0) == v);
        // combine v % 2^n == 2 * ((v/2) % 2^(n-1)) + v % 2
        let h = (v / 2) % pow2((n - 1) as nat);
        lemma_pow2_pos((n - 1) as nat);
        lemma_fundamental_div_mod(v as int, 2);
        lemma_fundamental_div_mod((v / 2) as int, pow2((n - 1) as nat) as int);
        lemma_pow2_unfold(n);
        let q = (v / 2) as int / pow2((n - 1) as nat) as int;
        assert(v == 2 * (pow2((n - 1) as nat) * q + h) + v % 2);
        assert(v == q * pow2(n) + (2 * h + v % 2)) by (nonlinear_arith)
            requires
                v == 2 * (pow2((n - 1) as nat) * q + h) + v % 2,
                pow2(n) == 2 * pow2((n - 1) as nat),
        ;
        assert(0 <= 2 * h + v % 2 < pow2(n));
        lemma_fundamental_div_mod_converse_mod(v as int, pow2(n) as int, q, 2 * h + (v % 2) as int);
        assert(bits_val(num_bits(v, n)) == 2 * h + (if (v / pow2(0)) % 2 == 1 {
            1nat
        } else {
            0nat
        }));
    }
}

/// Reading the bits of a value gives back the bit string it came from.
pub proof fn lemma_num_bits_of_val(s: Seq<bool>)
    ensures
        num_bits(bits_val(s), s.len()) =~= s,
    decreases s.len(),
{
    let n = s.len();
    if n > 0 {
        let v = bits_val(s);
        let vf = bits_val(s.drop_last());
        let l: nat = if s.last() {
            1
        } else {
            0
        };
        lemma_num_bits_of_val(s.drop_last());
        lemma_fundamental_div_mod_converse_div(v as int, 2, vf as int, l as int);
        lemma_fundamental_div_mod_converse_mod(v as int, 2, vf as int, l as int);
        assert(v / 2 == vf && v % 2 == l);
        lemma2_to64();
        assert forall|i: int| 0 <= i < n implies num_bits(v, n)[i] == s[i] by {
            if i < n - 1 {
                lemma_pow2_pos((n - 2 - i) as nat);
                lemma_div_denominator(v as int, 2, pow2((n - 2 - i) as nat) as int);
                lemma_pow2_unfold((n - 1 - i) as nat);
                assert(v / pow2((n - 1 - i) as nat) == vf / pow2((n - 2 - i) as nat));
                assert(num_bits(vf, (n - 1) as nat)[i] == s.drop_last()[i]);
            } else {
                assert(v / pow2(0) == v);
            }
        }
    }
}

/// A run of zeros is worth nothing.
pub proof fn lemma_zero_bits_val(n: nat)
    ensures
        bits_val(zero_bits(n)) == 0,
    decreases n,
{
    if n > 0 {
        assert(zero_bits(n).drop_last() =~= zero_bits((n - 1) as nat));
        lemma_zero_bits_val((n - 1) as nat);
    }
}

/// Splitting a bit string at `k` splits its value by division and
/// remainder at `2^(len - k)`.
pub proof fn lemma_bits_val_split(t: Seq<bool>, k: int)
    requires
        0 <= k <= t.len(),
    ensures
        bits_val(t.subrange(0, k)) == bits_val(t) / pow2((t.len() - k) as nat),
        bits_val(t.subrange(k, t.len() as int)) == bits_val(t) % pow2((t.len() - k) as nat),
{
    let a = t.subrange(0, k);
    let b = t.subrange(k, t.len() as int);
    assert(t =~= a + b);
    lemma_bits_val_concat(a, b);
    lemma_bits_val_bound(b);
    lemma_pow2_pos(b.len());
    lemma_fundamental_div_mod_converse_div(
        bits_val(t) as int,
        pow2(b.len()) as int,
        bits_val(a) as int,
        bits_val(b) as int,
    );
    lemma_fundamental_div_mod_converse_mod(
        bits_val(t) as int,
        pow2(b.len()) as int,
        bits_val(a) as int,
        bits_val(b) as int,
    );
}

/// The byte stream is eight bits per byte.
pub proof fn lemma_bytes_bits_len(bs: Seq<u8>)
    ensures
        bytes_bits(bs).len() == 8 * bs.len(),
    decreases bs.len(),
{
    if bs.len() > 0 {
        lemma_bytes_bits_len(bs.drop_first());
    }
}

/// Each byte's bits stand at their place in the stream.
pub proof fn lemma_bytes_bits_index(bs: Seq<u8>, k: int)
    requires
        0 <= k < bs.len(),
    ensures
        bytes_bits(bs).len() == 8 * bs.len(),
        bytes_bits(bs).subrange(8 * k, 8 * k + 8) =~= byte_bits(bs[k]),
    decreases k,
{
    lemma_bytes_bits_len(bs);
    lemma_bytes_bits_len(bs.drop_first());
    if k == 0 {
        assert(bytes_bits(bs) == byte_bits(bs[0]) + bytes_bits(bs.drop_first()));
        assert(bytes_bits(bs).subrange(0, 8) =~= byte_bits(bs[0]));
    } else {
        lemma_bytes_bits_index(bs.drop_first(), k - 1);
        assert(bytes_bits(bs) == byte_bits(bs[0]) + bytes_bits(bs.drop_first()));
        assert(bytes_bits(bs).subrange(8 * k, 8 * k + 8) =~= bytes_bits(bs.drop_first()).subrange(
            8 * (k - 1),
            8 * (k - 1) + 8,
        ));
    }
}

} // verus!
