//! A checksummed binary-identifier text codec.
//!
//! Turns an arbitrary byte sequence into a human-typable, error-detecting
//! base32 string and back: a CRC32 checksum over the raw blob, an unpadded
//! RFC 4648 base32 encoder/decoder, and the composition that prepends the
//! big-endian checksum bytes to the blob before encoding.

pub mod base32;
pub mod bits;
pub mod codec;
pub mod crc32;
