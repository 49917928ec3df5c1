use base32check::base32::{decode_plain, encode_plain, DecodeError};
use base32check::codec::encode_checksummed;
use base32check::crc32::checksum;

#[test]
fn checksum_canonical_value() {
    assert_eq!(checksum(b"123456789"), 0xCBF43926);
}

#[test]
fn checksum_empty() {
    assert_eq!(checksum(b""), 0);
}

#[test]
fn checksum_deterministic() {
    let blob = b"abcdefghijklmnop";
    let first = checksum(blob);
    let second = checksum(blob);
    assert_eq!(first, second);
    assert_eq!(first, checksum(b"abcdefghijklmnop"));
}

#[test]
fn encode_empty() {
    assert_eq!(encode_plain(b""), "");
}

#[test]
fn encode_rfc_vectors() {
    assert_eq!(encode_plain(b"f"), "MY");
    assert_eq!(encode_plain(b"fo"), "MZXQ");
    assert_eq!(encode_plain(b"foo"), "MZXW6");
    assert_eq!(encode_plain(b"foob"), "MZXW6YQ");
    assert_eq!(encode_plain(b"fooba"), "MZXW6YTB");
    assert_eq!(encode_plain(b"foobar"), "MZXW6YTBOI");
}

#[test]
fn encode_sixteen_bytes() {
    assert_eq!(encode_plain(b"abcdefghijklmnop"), "MFRGGZDFMZTWQ2LKNNWG23TPOA");
}

#[test]
fn encode_length_law() {
    for n in 0..40usize {
        let blob = vec![0xA7u8; n];
        assert_eq!(encode_plain(&blob).len(), (n * 8).div_ceil(5));
    }
}

#[test]
fn decode_empty() {
    assert_eq!(decode_plain(""), Ok(Vec::new()));
}

#[test]
fn decode_digits_blob() {
    assert_eq!(decode_plain("GEZDGNBVGY3TQOI"), Ok(b"123456789".to_vec()));
}

#[test]
fn decode_sixteen_bytes() {
    assert_eq!(
        decode_plain("MFRGGZDFMZTWQ2LKNNWG23TPOA"),
        Ok(b"abcdefghijklmnop".to_vec())
    );
}

#[test]
fn decode_lower_case_with_separators() {
    assert_eq!(
        decode_plain("em77e-bvlzu-aq"),
        Ok(vec![0x23, 0x3f, 0xf2, 0x06, 0xab, 0xcd, 0x01])
    );
}

#[test]
fn decode_case_insensitive() {
    let lower = decode_plain("mzxw6ytboi");
    let upper = decode_plain("MZXW6YTBOI");
    assert_eq!(lower, upper);
    assert_eq!(upper, Ok(b"foobar".to_vec()));
}

#[test]
fn decode_separator_insensitive() {
    let grouped = decode_plain("MZXW6-YTBOI");
    let plain = decode_plain("MZXW6YTBOI");
    assert_eq!(grouped, plain);
    assert_eq!(decode_plain("em77e-bvlzu-aq"), decode_plain("EM77EBVLZUAQ"));
}

#[test]
fn decode_only_separators() {
    assert_eq!(decode_plain("-"), Ok(Vec::new()));
    assert_eq!(decode_plain("---"), Ok(Vec::new()));
}

#[test]
fn decode_short_tail_discarded() {
    // One symbol is five bits: no full byte comes out.
    assert_eq!(decode_plain("A"), Ok(Vec::new()));
    // Two symbols: one byte, the trailing two bits are dropped even when set.
    assert_eq!(decode_plain("AB"), Ok(vec![0x00]));
    assert_eq!(decode_plain("7A"), Ok(vec![0xF8]));
}

#[test]
fn decode_rejects_foreign_characters() {
    assert_eq!(decode_plain("ABC!"), Err(DecodeError::InvalidCharacter));
    assert_eq!(decode_plain("A1B"), Err(DecodeError::InvalidCharacter));
    assert_eq!(decode_plain("0"), Err(DecodeError::InvalidCharacter));
    assert_eq!(decode_plain("MZXW6="), Err(DecodeError::InvalidCharacter));
    assert_eq!(decode_plain("MZ XW"), Err(DecodeError::InvalidCharacter));
}

#[test]
fn round_trip_plain() {
    let blobs: Vec<Vec<u8>> = vec![
        vec![],
        vec![0x00],
        vec![0xFF],
        vec![0x23, 0x3f, 0xf2, 0x06, 0xab, 0xcd, 0x01],
        b"foobar".to_vec(),
        (0u8..=255).collect(),
    ];
    for blob in blobs {
        let text = encode_plain(&blob);
        assert_eq!(decode_plain(&text), Ok(blob));
    }
}

#[test]
fn round_trip_survives_lowering_and_grouping() {
    let blob = b"abcdefghijklmnop".to_vec();
    let text = encode_plain(&blob).to_lowercase();
    let mut grouped = String::new();
    for (k, c) in text.chars().enumerate() {
        if k > 0 && k % 5 == 0 {
            grouped.push('-');
        }
        grouped.push(c);
    }
    assert_eq!(decode_plain(&grouped), Ok(blob));
}

#[test]
fn checksummed_identity_blob() {
    assert_eq!(
        encode_checksummed(b"abcdefghijklmnop"),
        "SQ5MBE3BMJRWIZLGM5UGS2TLNRWW433Q"
    );
}

#[test]
fn checksummed_prepends_big_endian_checksum() {
    let blob = b"123456789";
    let text = encode_checksummed(blob);
    let bytes = decode_plain(&text).unwrap();
    assert_eq!(&bytes[..4], &[0xCB, 0xF4, 0x39, 0x26]);
    assert_eq!(&bytes[4..], blob);
}

#[test]
fn checksummed_empty_blob() {
    let text = encode_checksummed(b"");
    let bytes = decode_plain(&text).unwrap();
    assert_eq!(bytes, vec![0x00, 0x00, 0x00, 0x00]);
}
