//! Unpadded base32 over the RFC 4648 alphabet.
//!
//! The encoder reads its input as a bit stream, most significant bit
//! first, cuts it into five-bit groups (the last group right-padded with
//! zero bits) and maps each group to `A`–`Z`, `2`–`7`. The decoder strips
//! `-` separators, accepts either case, maps symbols back to five-bit
//! groups and emits the full bytes of the reassembled stream, discarding
//! the trailing padding bits.

use vstd::prelude::*;
use vstd::arithmetic::power2::{
    pow2, lemma_pow2_adds, lemma_pow2_strictly_increases, lemma2_to64,
};
use vstd::arithmetic::div_mod::{
    lemma_fundamental_div_mod, lemma_fundamental_div_mod_converse_div,
    lemma_fundamental_div_mod_converse_mod,
};
use vstd::string::{StrSliceExecFns, StringExecFns};
use crate::bits::{
    num_bits, bits_val, zero_bits, byte_bits, bytes_bits, lemma_bits_val_bound,
    lemma_bits_val_concat, lemma_num_bits_val, lemma_num_bits_of_val, lemma_zero_bits_val,
    lemma_bits_val_split, lemma_bytes_bits_len, lemma_bytes_bits_index,
};

verus! {

/// The error a decode returns when the text is not base32.
#[derive(Clone, Copy, Debug, PartialEq, Eq, Structural)]
pub enum DecodeError {
    /// A character other than a symbol of the alphabet, in either case,
    /// and other than the `-` separator.
    InvalidCharacter,
}

/// The symbol standing for a five-bit value: `A`–`Z` for 0 to 25, then
/// `2`–`7` for 26 to 31.
pub open spec fn sym_char(v: int) -> char {
    if v < 26 {
        ((65 + v) as u8) as char
    } else {
        ((24 + v) as u8) as char
    }
}

/// The five-bit value a symbol stands for, taking either case; -1 for a
/// character outside the alphabet.
pub open spec fn sym_val(c: char) -> int {
    let u = c as u32;
    if 65 <= u && u <= 90 {
        u - 65
    } else if 97 <= u && u <= 122 {
        u - 97
    } else if 50 <= u && u <= 55 {
        26 + (u - 50)
    } else {
        -1
    }
}

/// The alphabet maps values one to one: reading a symbol back gives the
/// value it was written for, and no symbol is the separator.
pub proof fn lemma_sym_char_val(v: int)
    requires
        0 <= v < 32,
    ensures
        sym_val(sym_char(v)) == v,
        sym_char(v) != '-',
{
}

/// How many symbols the encoding of `len` bytes has: one per five bits,
/// the last group rounded up.
pub open spec fn n_syms(len: int) -> int {
    (8 * len + 4) / 5
}

/// The zero bits appended to fill the last five-bit group.
pub open spec fn pad_len(len: int) -> int {
    5 * n_syms(len) - 8 * len
}

/// The encoder's bit stream: the bytes' bits, right-padded with zero bits
/// to a multiple of five.
pub open spec fn padded_bits(bs: Seq<u8>) -> Seq<bool> {
    bytes_bits(bs) + zero_bits(pad_len(bs.len() as int) as nat)
}

/// The plain base32 encoding of a byte sequence: the symbol of each
/// five-bit group of the padded bit stream, in order.
pub open spec fn encode_plain_spec(bs: Seq<u8>) -> Seq<char> {
    Seq::new(
        n_syms(bs.len() as int) as nat,
        |j: int| sym_char(bits_val(padded_bits(bs).subrange(5 * j, 5 * j + 5)) as int),
    )
}

/// The padding is under five bits, and padded length is exactly five per
/// symbol.
pub proof fn lemma_pad_len(len: int)
    requires
        len >= 0,
    ensures
        0 <= pad_len(len) < 5,
        8 * len + pad_len(len) == 5 * n_syms(len),
        n_syms(len) >= 0,
{
    lemma_fundamental_div_mod(8 * len + 4, 5);
}

/// Dropping the separators of a piece of text.
pub open spec fn strip_seps(s: Seq<char>) -> Seq<char> {
    s.filter(|c: char| c != '-')
}

/// Every character is a symbol of the alphabet, in either case.
pub open spec fn valid_syms(s: Seq<char>) -> bool {
    forall|i: int| 0 <= i < s.len() ==> sym_val(s[i]) >= 0
}

/// Text a decode accepts: after dropping separators, only symbols.
pub open spec fn decode_valid(s: Seq<char>) -> bool {
    valid_syms(strip_seps(s))
}

/// The bit stream a symbol sequence carries: five bits per symbol.
pub open spec fn syms_bits(s: Seq<char>) -> Seq<bool>
    decreases s.len(),
{
    if s.len() == 0 {
        Seq::empty()
    } else {
        num_bits(sym_val(s[0]) as nat, 5) + syms_bits(s.drop_first())
    }
}

/// What a decode of `s` yields when `decode_valid(s)` holds: the full
/// bytes of the reassembled bit stream, trailing padding bits discarded.
pub open spec fn decode_plain_spec(s: Seq<char>) -> Seq<u8> {
    let bits = syms_bits(strip_seps(s));
    Seq::new(bits.len() / 8, |j: int| bits_val(bits.subrange(8 * j, 8 * j + 8)) as u8)
}

/// Appending a character appends its five bits to the carried stream.
pub proof fn lemma_syms_bits_push(s: Seq<char>, c: char)
    ensures
        syms_bits(s.push(c)) == syms_bits(s) + num_bits(sym_val(c) as nat, 5),
    decreases s.len(),
{
    if s.len() == 0 {
        assert(s.push(c)[0] == c);
        assert(s.push(c).drop_first() =~= Seq::<char>::empty());
        assert(syms_bits(s.push(c)) == num_bits(sym_val(c) as nat, 5) + syms_bits(
            Seq::<char>::empty(),
        ));
        assert(num_bits(sym_val(c) as nat, 5) + Seq::<bool>::empty() =~= num_bits(
            sym_val(c) as nat,
            5,
        ));
        assert(syms_bits(s) + num_bits(sym_val(c) as nat, 5) =~= num_bits(sym_val(c) as nat, 5));
    } else {
        assert(s.push(c)[0] == s[0]);
        assert(s.push(c).drop_first() =~= s.drop_first().push(c));
        lemma_syms_bits_push(s.drop_first(), c);
        assert(syms_bits(s.push(c)) == num_bits(sym_val(s[0]) as nat, 5) + (syms_bits(
            s.drop_first(),
        ) + num_bits(sym_val(c) as nat, 5)));
        assert(num_bits(sym_val(s[0]) as nat, 5) + (syms_bits(s.drop_first()) + num_bits(
            sym_val(c) as nat,
            5,
        )) =~= (num_bits(sym_val(s[0]) as nat, 5) + syms_bits(s.drop_first())) + num_bits(
            sym_val(c) as nat,
            5,
        ));
    }
}

/// The carried stream is five bits per symbol.
pub proof fn lemma_syms_bits_len(s: Seq<char>)
    ensures
        syms_bits(s).len() == 5 * s.len(),
    decreases s.len(),
{
    if s.len() > 0 {
        lemma_syms_bits_len(s.drop_first());
    }
}

/// Each symbol's five bits stand at their place in the carried stream.
pub proof fn lemma_syms_bits_index(s: Seq<char>, k: int)
    requires
        0 <= k < s.len(),
    ensures
        syms_bits(s).len() == 5 * s.len(),
        syms_bits(s).subrange(5 * k, 5 * k + 5) =~= num_bits(sym_val(s[k]) as nat, 5),
    decreases k,
{
    lemma_syms_bits_len(s);
    lemma_syms_bits_len(s.drop_first());
    if k == 0 {
        assert(syms_bits(s).subrange(0, 5) =~= num_bits(sym_val(s[0]) as nat, 5));
    } else {
        lemma_syms_bits_index(s.drop_first(), k - 1);
        assert(syms_bits(s).subrange(5 * k, 5 * k + 5) =~= syms_bits(s.drop_first()).subrange(
            5 * (k - 1),
            5 * (k - 1) + 5,
        ));
    }
}

/// Appending one character to the text either appends it to the stripped
/// text or, for the separator, leaves it unchanged.
pub proof fn lemma_strip_push(t: Seq<char>, c: char)
    ensures
        strip_seps(t.push(c)) == if c == '-' {
            strip_seps(t)
        } else {
            strip_seps(t).push(c)
        },
{
    reveal(Seq::filter);
    assert(t.push(c).drop_last() =~= t);
    assert(t.push(c).last() == c);
}

/// Stripped text has no separator left in it.
pub proof fn lemma_strip_no_sep(t: Seq<char>)
    ensures
        forall|k: int| 0 <= k < strip_seps(t).len() ==> strip_seps(t)[k] != '-',
    decreases t.len(),
{
    reveal(Seq::filter);
    if t.len() > 0 {
        lemma_strip_no_sep(t.drop_last());
    }
}

/// Text without separators is left as it is by the stripping.
pub proof fn lemma_strip_identity(t: Seq<char>)
    requires
        forall|k: int| 0 <= k < t.len() ==> t[k] != '-',
    ensures
        strip_seps(t) == t,
    decreases t.len(),
{
    reveal(Seq::filter);
    if t.len() == 0 {
        assert(strip_seps(t) =~= t);
    } else {
        lemma_strip_identity(t.drop_last());
        assert(strip_seps(t) =~= strip_seps(t.drop_last()).push(t.last()));
        assert(strip_seps(t.drop_last()).push(t.last()) =~= t);
    }
}

/// A non-separator character of the text survives the stripping.
pub proof fn lemma_strip_keeps(t: Seq<char>, i: int)
    requires
        0 <= i < t.len(),
        t[i] != '-',
    ensures
        exists|k: int| 0 <= k < strip_seps(t).len() && strip_seps(t)[k] == t[i],
    decreases t.len(),
{
    reveal(Seq::filter);
    let st = strip_seps(t);
    if i == t.len() - 1 {
        assert(st =~= strip_seps(t.drop_last()).push(t[i]));
        assert(st[st.len() - 1] == t[i]);
    } else {
        lemma_strip_keeps(t.drop_last(), i);
        let k = choose|k: int|
            0 <= k < strip_seps(t.drop_last()).len() && strip_seps(t.drop_last())[k] == t.drop_last()[i];
        if t.last() == '-' {
            assert(st == strip_seps(t.drop_last()));
        } else {
            assert(st =~= strip_seps(t.drop_last()).push(t.last()));
        }
        assert(st[k] == t[i]);
    }
}

/// A small power of two, for cutting a bit accumulator.
fn pow2_small(k: usize) -> (r: u16)
    requires
        k <= 7,
    ensures
        r as nat == pow2(k as nat),
        r >= 1,
{
    let r: u16 = match k {
        0 => 1,
        1 => 2,
        2 => 4,
        3 => 8,
        4 => 16,
        5 => 32,
        6 => 64,
        _ => 128,
    };
    proof {
        lemma2_to64();
    }
    r
}

/// The one-character text of a symbol value.
fn sym_str(v: u8) -> (s: &'static str)
    requires
        v < 32,
    ensures
        s@ =~= seq![sym_char(v as int)],
{
    proof {
        reveal_strlit("A");
        reveal_strlit("B");
        reveal_strlit("C");
        reveal_strlit("D");
        reveal_strlit("E");
        reveal_strlit("F");
        reveal_strlit("G");
        reveal_strlit("H");
        reveal_strlit("I");
        reveal_strlit("J");
        reveal_strlit("K");
        reveal_strlit("L");
        reveal_strlit("M");
        reveal_strlit("N");
        reveal_strlit("O");
        reveal_strlit("P");
        reveal_strlit("Q");
        reveal_strlit("R");
        reveal_strlit("S");
        reveal_strlit("T");
        reveal_strlit("U");
        reveal_strlit("V");
        reveal_strlit("W");
        reveal_strlit("X");
        reveal_strlit("Y");
        reveal_strlit("Z");
        reveal_strlit("2");
        reveal_strlit("3");
        reveal_strlit("4");
        reveal_strlit("5");
        reveal_strlit("6");
        reveal_strlit("7");
    }
    match v {
        0 => "A",
        1 => "B",
        2 => "C",
        3 => "D",
        4 => "E",
        5 => "F",
        6 => "G",
        7 => "H",
        8 => "I",
        9 => "J",
        10 => "K",
        11 => "L",
        12 => "M",
        13 => "N",
        14 => "O",
        15 => "P",
        16 => "Q",
        17 => "R",
        18 => "S",
        19 => "T",
        20 => "U",
        21 => "V",
        22 => "W",
        23 => "X",
        24 => "Y",
        25 => "Z",
        26 => "2",
        27 => "3",
        28 => "4",
        29 => "5",
        30 => "6",
        _ => "7",
    }
}

/// The plain base32 encoding of `bytes`: upper-case, unpadded, without
/// separators; one symbol for every five bits of input, rounded up.
pub fn encode_plain(bytes: &[u8]) -> (r: String)
    ensures
        r@ == encode_plain_spec(bytes@),
        r@.len() == n_syms(bytes@.len() as int),
{
    let ghost all = bytes@;
    let ghost bstream = bytes_bits(all);
    proof {
        lemma_bytes_bits_len(all);
        lemma2_to64();
    }
    let mut out = String::new();
    let mut acc: u16 = 0;
    let mut nbits: usize = 0;
    let mut i: usize = 0;
    while i < bytes.len()
        invariant
            all == bytes@,
            bstream == bytes_bits(all),
            bstream.len() == 8 * all.len(),
            i <= all.len(),
            nbits < 5,
            5 * out@.len() + nbits == 8 * i,
            (acc as nat) < pow2(nbits as nat),
            acc as nat == bits_val(bstream.subrange(8 * i - nbits, 8 * i)),
            forall|j: int|
                0 <= j < out@.len() ==> out@[j] == sym_char(
                    bits_val(bstream.subrange(5 * j, 5 * j + 5)) as int,
                ),
        decreases all.len() - i,
    {
        let b = bytes[i];
        proof {
            if nbits < 4 {
                lemma_pow2_strictly_increases(nbits as nat, 4);
            }
            lemma2_to64();
            assert(acc < 16);
            lemma_bytes_bits_index(all, i as int);
            let pre = bstream.subrange(8 * i - nbits, 8 * i);
            let byt = bstream.subrange(8 * i, 8 * i + 8);
            assert(bstream.subrange(8 * i - nbits, 8 * i + 8) =~= pre + byt);
            lemma_bits_val_concat(pre, byt);
            assert(byt =~= byte_bits(b));
            lemma_num_bits_val(b as nat, 8);
            assert(bits_val(byte_bits(b)) == b as nat);
            assert(pow2(8) == 256);
        }
        let mut acc2: u16 = acc * 256 + (b as u16);
        let mut nb2: usize = nbits + 8;
        proof {
            assert(bstream.subrange(8 * (i + 1) - nb2, 8 * (i + 1)) =~= bstream.subrange(
                8 * i - nbits,
                8 * i + 8,
            ));
            lemma_bits_val_bound(bstream.subrange(8 * (i + 1) - nb2, 8 * (i + 1)));
        }
        while nb2 >= 5
            invariant
                all == bytes@,
                bstream == bytes_bits(all),
                bstream.len() == 8 * all.len(),
                i < all.len(),
                nb2 <= 12,
                5 * out@.len() + nb2 == 8 * (i + 1),
                (acc2 as nat) < pow2(nb2 as nat),
                acc2 as nat == bits_val(bstream.subrange(8 * (i + 1) - nb2, 8 * (i + 1))),
                forall|j: int|
                    0 <= j < out@.len() ==> out@[j] == sym_char(
                        bits_val(bstream.subrange(5 * j, 5 * j + 5)) as int,
                    ),
            decreases nb2,
        {
            let ghost prev = out@;
            let ghost m = out@.len() as int;
            let ghost t = bstream.subrange(8 * (i + 1) - nb2, 8 * (i + 1));
            let sh = nb2 - 5;
            let p = pow2_small(sh);
            proof {
                lemma_bits_val_split(t, 5);
                assert(t.subrange(0, 5) =~= bstream.subrange(5 * m, 5 * m + 5));
                assert(t.subrange(5, t.len() as int) =~= bstream.subrange(
                    8 * (i + 1) - sh,
                    8 * (i + 1),
                ));
                lemma_bits_val_bound(t.subrange(0, 5));
                lemma_bits_val_bound(t.subrange(5, t.len() as int));
                lemma2_to64();
                assert((acc2 / p) as nat == bits_val(t) / pow2(sh as nat));
                assert((acc2 % p) as nat == bits_val(t) % pow2(sh as nat));
            }
            let sym = (acc2 / p) as u8;
            let s1 = sym_str(sym);
            out.append(s1);
            acc2 = acc2 % p;
            nb2 = sh;
            proof {
                assert(out@ == prev + seq![sym_char(sym as int)]);
                assert(out@.len() == m + 1);
                assert forall|j: int| 0 <= j < out@.len() implies out@[j] == sym_char(
                    bits_val(bstream.subrange(5 * j, 5 * j + 5)) as int,
                ) by {
                    if j < m {
                        assert(out@[j] == prev[j]);
                    } else {
                        assert(out@[j] == sym_char(sym as int));
                    }
                }
            }
        }
        acc = acc2;
        nbits = nb2;
        i = i + 1;
    }
    let ghost n = all.len() as int;
    let ghost m = out@.len() as int;
    if nbits > 0 {
        let p = pow2_small(5 - nbits);
        proof {
            lemma_pow2_adds(nbits as nat, (5 - nbits) as nat);
            lemma2_to64();
            assert((acc as nat) * (p as nat) < 32) by (nonlinear_arith)
                requires
                    (acc as nat) < pow2(nbits as nat),
                    p as nat == pow2((5 - nbits) as nat),
                    pow2(nbits as nat) * pow2((5 - nbits) as nat) == 32,
                    p >= 1,
            ;
        }
        let sym = (acc * p) as u8;
        proof {
            lemma_pad_len(n);
            lemma_fundamental_div_mod_converse_div(8 * n + 4, 5, m + 1, nbits - 1);
            assert(n_syms(n) == m + 1);
            assert(pad_len(n) == 5 - nbits);
            let tail = bstream.subrange(8 * n - nbits, 8 * n);
            let zs = zero_bits((5 - nbits) as nat);
            assert(padded_bits(all).subrange(5 * m, 5 * m + 5) =~= tail + zs);
            lemma_bits_val_concat(tail, zs);
            lemma_zero_bits_val((5 - nbits) as nat);
            assert(bits_val(tail + zs) == sym as nat);
        }
        let s1 = sym_str(sym);
        out.append(s1);
        proof {
            assert forall|j: int| 0 <= j < out@.len() implies out@[j] == encode_plain_spec(all)[j] by {
                if j < m {
                    assert(padded_bits(all).subrange(5 * j, 5 * j + 5) =~= bstream.subrange(
                        5 * j,
                        5 * j + 5,
                    ));
                }
            }
            assert(out@ =~= encode_plain_spec(all));
        }
    } else {
        proof {
            lemma_pad_len(n);
            lemma_fundamental_div_mod_converse_div(8 * n + 4, 5, m, 4);
            assert(n_syms(n) == m);
            assert(pad_len(n) == 0);
            assert(padded_bits(all) =~= bstream);
            assert forall|j: int| 0 <= j < out@.len() implies out@[j] == encode_plain_spec(all)[j] by {
                assert(padded_bits(all).subrange(5 * j, 5 * j + 5) =~= bstream.subrange(
                    5 * j,
                    5 * j + 5,
                ));
            }
            assert(out@ =~= encode_plain_spec(all));
        }
    }
    out
}

/// The value of one character of base32 text, taking either case; `None`
/// outside the alphabet.
fn sym_value(c: char) -> (r: Option<u8>)
    ensures
        match r {
            Some(v) => v < 32 && sym_val(c) == v as int,
            None => sym_val(c) == -1,
        },
{
    let u = c as u32;
    if 65 <= u && u <= 90 {
        Some((u - 65) as u8)
    } else if 97 <= u && u <= 122 {
        Some((u - 97) as u8)
    } else if 50 <= u && u <= 55 {
        Some((26 + (u - 50)) as u8)
    } else {
        None
    }
}

/// Decodes base32 text back to the byte sequence it spells. `-`
/// separators are dropped and either case is taken; any other character
/// outside the alphabet fails the decode. Trailing bits that do not fill
/// a byte are discarded without being checked.
pub fn decode_plain(s: &str) -> (r: Result<Vec<u8>, DecodeError>)
    ensures
        match r {
            Ok(v) => decode_valid(s@) && v@ == decode_plain_spec(s@),
            Err(e) => !decode_valid(s@) && e == DecodeError::InvalidCharacter,
        },
{
    let n = s.unicode_len();
    let mut out: Vec<u8> = Vec::new();
    let mut acc: u16 = 0;
    let mut nbits: usize = 0;
    let mut i: usize = 0;
    proof {
        lemma2_to64();
        reveal(Seq::filter);
        assert(s@.subrange(0, 0) =~= Seq::<char>::empty());
        assert(strip_seps(Seq::<char>::empty()) =~= Seq::<char>::empty());
    }
    while i < n
        invariant
            n as nat == s@.len(),
            i <= n,
            valid_syms(strip_seps(s@.subrange(0, i as int))),
            nbits < 8,
            8 * out@.len() + nbits == 5 * strip_seps(s@.subrange(0, i as int)).len(),
            syms_bits(strip_seps(s@.subrange(0, i as int))).len() == 5 * strip_seps(
                s@.subrange(0, i as int),
            ).len(),
            (acc as nat) < pow2(nbits as nat),
            acc as nat == bits_val(
                syms_bits(strip_seps(s@.subrange(0, i as int))).subrange(
                    8 * out@.len() as int,
                    syms_bits(strip_seps(s@.subrange(0, i as int))).len() as int,
                ),
            ),
            forall|j: int|
                0 <= j < out@.len() ==> out@[j] as nat == bits_val(
                    syms_bits(strip_seps(s@.subrange(0, i as int))).subrange(8 * j, 8 * j + 8),
                ),
        decreases n - i,
    {
        let c = s.get_char(i);
        let ghost pre = s@.subrange(0, i as int);
        let ghost pre1 = s@.subrange(0, i + 1);
        let ghost st = strip_seps(pre);
        proof {
            assert(pre1 =~= pre.push(c));
            lemma_strip_push(pre, c);
        }
        if c != '-' {
            match sym_value(c) {
                None => {
                    proof {
                        lemma_strip_keeps(s@, i as int);
                        let k = choose|k: int|
                            0 <= k < strip_seps(s@).len() && strip_seps(s@)[k] == s@[i as int];
                        assert(sym_val(strip_seps(s@)[k]) == -1);
                        assert(!valid_syms(strip_seps(s@)));
                    }
                    return Err(DecodeError::InvalidCharacter);
                },
                Some(v) => {
                    let ghost st1 = strip_seps(pre1);
                    let ghost bits_old = syms_bits(st);
                    let ghost bits1 = syms_bits(st1);
                    let ghost a = 8 * out@.len() as int;
                    proof {
                        lemma2_to64();
                        assert(st1 == st.push(c));
                        lemma_syms_bits_push(st, c);
                        lemma_syms_bits_len(st1);
                        lemma_num_bits_val(v as nat, 5);
                        assert(bits_val(num_bits(sym_val(c) as nat, 5)) == v as nat);
                        if nbits < 7 {
                            lemma_pow2_strictly_increases(nbits as nat, 7);
                        }
                        assert(acc < 128);
                        assert(bits1.subrange(a, bits1.len() as int) =~= bits_old.subrange(
                            a,
                            bits_old.len() as int,
                        ) + num_bits(sym_val(c) as nat, 5));
                        lemma_bits_val_concat(
                            bits_old.subrange(a, bits_old.len() as int),
                            num_bits(sym_val(c) as nat, 5),
                        );
                    }
                    let acc2 = acc * 32 + (v as u16);
                    let nb2 = nbits + 5;
                    proof {
                        assert(acc2 as nat == bits_val(bits1.subrange(a, bits1.len() as int)));
                        lemma_bits_val_bound(bits1.subrange(a, bits1.len() as int));
                    }
                    if nb2 >= 8 {
                        let ghost m = out@.len() as int;
                        let ghost t = bits1.subrange(a, bits1.len() as int);
                        let sh = nb2 - 8;
                        let p = pow2_small(sh);
                        proof {
                            lemma_bits_val_split(t, 8);
                            assert(t.subrange(0, 8) =~= bits1.subrange(8 * m, 8 * m + 8));
                            assert(t.subrange(8, t.len() as int) =~= bits1.subrange(
                                8 * m + 8,
                                bits1.len() as int,
                            ));
                            lemma_bits_val_bound(t.subrange(0, 8));
                            lemma_bits_val_bound(t.subrange(8, t.len() as int));
                            assert((acc2 / p) as nat == bits_val(t) / pow2(sh as nat));
                            assert((acc2 % p) as nat == bits_val(t) % pow2(sh as nat));
                        }
                        let byte = (acc2 / p) as u8;
                        out.push(byte);
                        acc = acc2 % p;
                        nbits = sh;
                        proof {
                            assert forall|j: int| 0 <= j < out@.len() implies out@[j] as nat
                                == bits_val(bits1.subrange(8 * j, 8 * j + 8)) by {
                                if j < m {
                                    assert(bits1.subrange(8 * j, 8 * j + 8) =~= bits_old.subrange(
                                        8 * j,
                                        8 * j + 8,
                                    ));
                                }
                            }
                        }
                    } else {
                        acc = acc2;
                        nbits = nb2;
                        proof {
                            assert forall|j: int| 0 <= j < out@.len() implies out@[j] as nat
                                == bits_val(bits1.subrange(8 * j, 8 * j + 8)) by {
                                assert(bits1.subrange(8 * j, 8 * j + 8) =~= bits_old.subrange(
                                    8 * j,
                                    8 * j + 8,
                                ));
                            }
                        }
                    }
                },
            }
        }
        i = i + 1;
    }
    proof {
        assert(s@.subrange(0, n as int) =~= s@);
        let st = strip_seps(s@);
        let bits = syms_bits(st);
        lemma_fundamental_div_mod_converse_div(
            bits.len() as int,
            8,
            out@.len() as int,
            nbits as int,
        );
        assert(bits.len() / 8 == out@.len());
        assert(out@ =~= decode_plain_spec(s@));
    }
    Ok(out)
}

/// A symbol sequence whose five-bit groups are exactly the consecutive
/// five-bit slices of `p` carries `p` itself.
proof fn lemma_syms_bits_matches(t: Seq<char>, p: Seq<bool>)
    requires
        p.len() == 5 * t.len(),
        forall|k: int|
            0 <= k < t.len() ==> 0 <= sym_val(t[k]) < 32 && sym_val(t[k]) == bits_val(
                p.subrange(5 * k, 5 * k + 5),
            ),
    ensures
        syms_bits(t) == p,
    decreases t.len(),
{
    if t.len() == 0 {
        assert(syms_bits(t) =~= p);
    } else {
        let tr = t.drop_first();
        let pr = p.subrange(5, p.len() as int);
        assert forall|k: int| 0 <= k < tr.len() implies 0 <= sym_val(tr[k]) < 32 && sym_val(tr[k])
            == bits_val(pr.subrange(5 * k, 5 * k + 5)) by {
            assert(tr[k] == t[k + 1]);
            assert(pr.subrange(5 * k, 5 * k + 5) =~= p.subrange(5 * (k + 1), 5 * (k + 1) + 5));
        }
        lemma_syms_bits_matches(tr, pr);
        let p0 = p.subrange(0, 5);
        lemma_num_bits_of_val(p0);
        assert(num_bits(sym_val(t[0]) as nat, 5) == p0);
        assert(syms_bits(t) == p0 + pr);
        assert(p0 + pr =~= p);
    }
}

/// Round trip: decoding what the encoder produced is accepted and gives
/// back the bytes it was made from.
pub proof fn lemma_round_trip(bs: Seq<u8>)
    ensures
        decode_valid(encode_plain_spec(bs)),
        decode_plain_spec(encode_plain_spec(bs)) == bs,
{
    let e = encode_plain_spec(bs);
    let n = bs.len() as int;
    let pb = padded_bits(bs);
    lemma_pad_len(n);
    lemma_bytes_bits_len(bs);
    assert(pb.len() == 5 * n_syms(n));
    assert forall|k: int| 0 <= k < e.len() implies 0 <= sym_val(e[k]) < 32 && sym_val(e[k])
        == bits_val(pb.subrange(5 * k, 5 * k + 5)) && e[k] != '-' by {
        lemma_bits_val_bound(pb.subrange(5 * k, 5 * k + 5));
        lemma2_to64();
        lemma_sym_char_val(bits_val(pb.subrange(5 * k, 5 * k + 5)) as int);
    }
    lemma_strip_identity(e);
    assert(valid_syms(e));
    lemma_syms_bits_matches(e, pb);
    lemma_fundamental_div_mod_converse_div(pb.len() as int, 8, n, pad_len(n));
    assert(pb.len() / 8 == n);
    assert forall|j: int| 0 <= j < n implies bits_val(pb.subrange(8 * j, 8 * j + 8)) == bs[j] as nat
        by {
        lemma_bytes_bits_index(bs, j);
        assert(pb.subrange(8 * j, 8 * j + 8) =~= bytes_bits(bs).subrange(8 * j, 8 * j + 8));
        lemma_num_bits_val(bs[j] as nat, 8);
        lemma2_to64();
        assert(byte_bits(bs[j]) == num_bits(bs[j] as nat, 8));
    }
    assert(decode_plain_spec(e) =~= bs);
}

/// The upper-case image of a character: `a`–`z` go to `A`–`Z`, all
/// others stay as they are.
pub open spec fn upper_char(c: char) -> char {
    if 97 <= c as u32 && c as u32 <= 122 {
        ((c as u32 - 32) as u8) as char
    } else {
        c
    }
}

/// The upper-case image of a piece of text.
pub open spec fn upper_seq(s: Seq<char>) -> Seq<char> {
    s.map_values(|c: char| upper_char(c))
}

/// Raising the case never changes what a character is worth.
proof fn lemma_upper_sym_val(c: char)
    ensures
        sym_val(upper_char(c)) == sym_val(c),
        (upper_char(c) == '-') == (c == '-'),
{
}

/// Stripping separators and raising the case can be done in either
/// order.
proof fn lemma_strip_upper_commutes(s: Seq<char>)
    ensures
        strip_seps(upper_seq(s)) == upper_seq(strip_seps(s)),
    decreases s.len(),
{
    reveal(Seq::filter);
    if s.len() == 0 {
        assert(upper_seq(s) =~= Seq::<char>::empty());
        assert(strip_seps(upper_seq(s)) =~= upper_seq(strip_seps(s)));
    } else {
        let dl = s.drop_last();
        let c = s.last();
        lemma_strip_upper_commutes(dl);
        lemma_upper_sym_val(c);
        assert(s =~= dl.push(c));
        assert(upper_seq(s) =~= upper_seq(dl).push(upper_char(c)));
        lemma_strip_push(upper_seq(dl), upper_char(c));
        lemma_strip_push(dl, c);
        if c == '-' {
            assert(strip_seps(upper_seq(s)) == upper_seq(strip_seps(s)));
        } else {
            assert(strip_seps(upper_seq(s)) == upper_seq(strip_seps(dl)).push(upper_char(c)));
            assert(upper_seq(strip_seps(s)) =~= upper_seq(strip_seps(dl)).push(upper_char(c)));
        }
    }
}

/// The bit stream a symbol sequence carries is blind to case.
proof fn lemma_syms_bits_upper(t: Seq<char>)
    ensures
        syms_bits(upper_seq(t)) == syms_bits(t),
    decreases t.len(),
{
    if t.len() == 0 {
        assert(upper_seq(t) =~= Seq::<char>::empty());
    } else {
        lemma_syms_bits_upper(t.drop_first());
        lemma_upper_sym_val(t[0]);
        assert(upper_seq(t).drop_first() =~= upper_seq(t.drop_first()));
        assert(upper_seq(t)[0] == upper_char(t[0]));
    }
}

/// Case insensitivity: text that decodes, decodes to the same bytes when
/// raised to upper case.
pub proof fn lemma_decode_case_insensitive(s: Seq<char>)
    requires
        decode_valid(s),
    ensures
        decode_valid(upper_seq(s)),
        decode_plain_spec(upper_seq(s)) == decode_plain_spec(s),
{
    lemma_strip_upper_commutes(s);
    let st = strip_seps(s);
    lemma_syms_bits_upper(st);
    assert forall|i: int| 0 <= i < upper_seq(st).len() implies sym_val(upper_seq(st)[i]) >= 0 by {
        lemma_upper_sym_val(st[i]);
    }
    assert(valid_syms(strip_seps(upper_seq(s))));
    assert(decode_plain_spec(upper_seq(s)) == decode_plain_spec(s));
}

/// Separator insensitivity: text decodes to the same bytes once its `-`
/// separators are removed.
pub proof fn lemma_decode_sep_insensitive(s: Seq<char>)
    ensures
        decode_valid(strip_seps(s)) == decode_valid(s),
        decode_plain_spec(strip_seps(s)) == decode_plain_spec(s),
{
    lemma_strip_no_sep(s);
    lemma_strip_identity(strip_seps(s));
}

} // verus!
