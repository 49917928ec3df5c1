//! The checksummed identifier encoding.
//!
//! A blob is shown to a human as the base32 text of its CRC32 checksum,
//! serialized as four big-endian bytes, followed by the blob itself. A
//! reader who retypes the text can have the checksum recomputed over the
//! decoded tail and compared against the decoded head; the codec itself
//! offers no paired decode-and-verify operation.

use vstd::prelude::*;
use crate::base32::{encode_plain, encode_plain_spec, n_syms};
use crate::crc32::{checksum, crc32_of};

verus! {

/// The checksum of a byte sequence as four bytes, big-endian.
pub open spec fn checksum_bytes(bs: Seq<u8>) -> Seq<u8> {
    let c = crc32_of(bs);
    seq![(c >> 24) as u8, (c >> 16) as u8, (c >> 8) as u8, c as u8]
}

/// What the checksummed encoding is: the four checksum bytes, then the
/// blob, base32-encoded as one byte sequence.
pub open spec fn encode_checksummed_spec(bs: Seq<u8>) -> Seq<char> {
    encode_plain_spec(checksum_bytes(bs) + bs)
}

/// Encodes `bytes` with its CRC32 checksum prepended as four big-endian
/// bytes.
pub fn encode_checksummed(bytes: &[u8]) -> (r: String)
    ensures
        r@ == encode_checksummed_spec(bytes@),
        r@.len() == n_syms(bytes@.len() as int + 4),
{
    let c = checksum(bytes);
    let mut v: Vec<u8> = Vec::new();
    proof {
        assert(c >> 24 < 256) by (bit_vector);
    }
    v.push((c >> 24) as u8);
    v.push(#[verifier::truncate] ((c >> 16) as u8));
    v.push(#[verifier::truncate] ((c >> 8) as u8));
    v.push(#[verifier::truncate] (c as u8));
    proof {
        assert(v@ =~= checksum_bytes(bytes@) + bytes@.subrange(0, 0));
    }
    let mut i: usize = 0;
    while i < bytes.len()
        invariant
            i <= bytes@.len(),
            c == crc32_of(bytes@),
            v@ == checksum_bytes(bytes@) + bytes@.subrange(0, i as int),
        decreases bytes@.len() - i,
    {
        v.push(bytes[i]);
        proof {
            assert(v@ =~= checksum_bytes(bytes@) + bytes@.subrange(0, i + 1));
        }
        i = i + 1;
    }
    proof {
        assert(bytes@.subrange(0, bytes@.len() as int) =~= bytes@);
    }
    encode_plain(v.as_slice())
}

} // verus!
