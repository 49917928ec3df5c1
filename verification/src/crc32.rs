//! The CRC32 checksum (ISO-HDLC / zlib variant).
//!
//! The specification is the bit-level shift register: per input byte the
//! register is xored with the byte and shifted eight times, folding in the
//! reflected polynomial `0xEDB88320` whenever the low bit is set; the
//! register starts at `0xFFFFFFFF` and the final value is xored with
//! `0xFFFFFFFF`. The executable function runs the standard 256-entry
//! lookup-table form and is proved equal to the bit-level definition.

use vstd::prelude::*;

verus! {

/// One step of the bit-reflected CRC32 shift register.
pub open spec fn crc_step(c: u32) -> u32 {
    if c & 1 == 1 {
        (c >> 1) ^ 0xEDB8_8320u32
    } else {
        c >> 1
    }
}

/// Eight register steps: one input byte's worth of shifting.
pub open spec fn crc_step8(c: u32) -> u32 {
    crc_step(crc_step(crc_step(crc_step(crc_step(crc_step(crc_step(crc_step(c))))))))
}

/// Folding one byte into the running register value.
pub open spec fn crc_push_byte(c: u32, b: u8) -> u32 {
    crc_step8(c ^ (b as u32))
}

/// Folding a whole byte sequence, front first.
pub open spec fn crc_fold(c: u32, bs: Seq<u8>) -> u32
    decreases bs.len(),
{
    if bs.len() == 0 {
        c
    } else {
        crc_fold(crc_push_byte(c, bs[0]), bs.drop_first())
    }
}

/// The CRC32 checksum of a byte sequence.
pub open spec fn crc32_of(bs: Seq<u8>) -> u32 {
    crc_fold(0xFFFF_FFFFu32, bs) ^ 0xFFFF_FFFFu32
}

/// Folding distributes over appending one byte at the back.
pub proof fn lemma_crc_fold_push(c: u32, bs: Seq<u8>, b: u8)
    ensures
        crc_fold(c, bs.push(b)) == crc_push_byte(crc_fold(c, bs), b),
    decreases bs.len(),
{
    if bs.len() == 0 {
        assert(bs.push(b)[0] == b);
        assert(bs.push(b).drop_first() =~= Seq::<u8>::empty());
        assert(crc_fold(c, bs.push(b)) == crc_fold(crc_push_byte(c, b), Seq::<u8>::empty()));
        assert(crc_fold(crc_push_byte(c, b), Seq::<u8>::empty()) == crc_push_byte(c, b));
        assert(crc_fold(c, bs) == c);
    } else {
        assert(bs.push(b)[0] == bs[0]);
        assert(bs.push(b).drop_first() =~= bs.drop_first().push(b));
        assert(crc_fold(c, bs.push(b)) == crc_fold(
            crc_push_byte(c, bs[0]),
            bs.drop_first().push(b),
        ));
        lemma_crc_fold_push(crc_push_byte(c, bs[0]), bs.drop_first(), b);
    }
}

/// Eight register steps split into a plain shift of the high bits and
/// eight steps on the low byte alone: the table form of the algorithm.
proof fn lemma_crc_table_step(x: u32)
    ensures
        crc_step8(x) == (x >> 8) ^ crc_step8(x & 0xFF),
{
    assert(crc_step8(x) == (x >> 8) ^ crc_step8(x & 0xFF)) by (bit_vector);
}

/// One executable register step.
fn crc_step_exec(c: u32) -> (r: u32)
    ensures
        r == crc_step(c),
{
    if c & 1 == 1 {
        (c >> 1) ^ 0xEDB8_8320u32
    } else {
        c >> 1
    }
}

/// The 256-entry lookup table: entry `i` is eight register steps on `i`.
fn crc_table() -> (t: Vec<u32>)
    ensures
        t.len() == 256,
        forall|j: int| 0 <= j < 256 ==> t[j] == crc_step8(j as u32),
{
    let mut t: Vec<u32> = Vec::new();
    let mut i: usize = 0;
    while i < 256
        invariant
            i <= 256,
            t.len() == i,
            forall|j: int| 0 <= j < i ==> t[j] == crc_step8(j as u32),
        decreases 256 - i,
    {
        let c1 = crc_step_exec(i as u32);
        let c2 = crc_step_exec(c1);
        let c3 = crc_step_exec(c2);
        let c4 = crc_step_exec(c3);
        let c5 = crc_step_exec(c4);
        let c6 = crc_step_exec(c5);
        let c7 = crc_step_exec(c6);
        let c8 = crc_step_exec(c7);
        t.push(c8);
        i = i + 1;
    }
    t
}

/// The CRC32 checksum of `bytes`, by the table-driven algorithm.
pub fn checksum(bytes: &[u8]) -> (r: u32)
    ensures
        r == crc32_of(bytes@),
{
    let t = crc_table();
    let mut crc: u32 = 0xFFFF_FFFFu32;
    let mut i: usize = 0;
    while i < bytes.len()
        invariant
            t.len() == 256,
            forall|j: int| 0 <= j < 256 ==> t[j] == crc_step8(j as u32),
            i <= bytes@.len(),
            crc == crc_fold(0xFFFF_FFFFu32, bytes@.subrange(0, i as int)),
        decreases bytes@.len() - i,
    {
        let b = bytes[i];
        let x = crc ^ (b as u32);
        let idx = (x & 0xFF) as usize;
        assert(x & 0xFF < 256) by (bit_vector);
        let shifted = crc >> 8;
        let ncrc = shifted ^ t[idx];
        proof {
            lemma_crc_table_step(x);
            assert(x >> 8 == crc >> 8) by (bit_vector)
                requires
                    x == crc ^ (b as u32),
            ;
            assert(ncrc == crc_push_byte(crc, b));
            assert(bytes@.subrange(0, i + 1) =~= bytes@.subrange(0, i as int).push(bytes@[i as int]));
            lemma_crc_fold_push(0xFFFF_FFFFu32, bytes@.subrange(0, i as int), b);
        }
        crc = ncrc;
        i = i + 1;
    }
    assert(bytes@.subrange(0, bytes@.len() as int) =~= bytes@);
    crc ^ 0xFFFF_FFFFu32
}

} // verus!
