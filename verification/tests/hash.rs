use lithos_core::hash::{Blake3Hash, HashParseError};

#[test]
fn blake3_compute() {
    let hash1 = Blake3Hash::compute(b"hello world");
    let hash2 = Blake3Hash::compute(b"hello world");
    assert_eq!(hash1, hash2);
    assert_ne!(hash1, Blake3Hash::compute(b"hello worle"));
}

#[test]
fn blake3_display_parse() {
    let hash = Blake3Hash::compute(b"test");
    let hex_str = hash.to_hex();
    assert_eq!(hex_str.len(), 64);
    let parsed: Blake3Hash = hex_str.parse().unwrap();
    assert_eq!(hash, parsed, "Display/parse roundtrip works");
    assert_eq!(Blake3Hash::from_hex(&hex_str.to_uppercase()).unwrap(), hash);
}

#[test]
fn blake3_known_digest_and_zero() {
    assert_eq!(
        Blake3Hash::compute(b"").to_hex(),
        "af1349b9f5f9a1a6a0404dea36dcc9499bcb25c9adc112b7cc9a93cae41f3262"
    );
    assert_eq!(Blake3Hash::zero().to_hex(), "0".repeat(64));
}

#[test]
fn blake3_parse_errors() {
    assert_eq!(Blake3Hash::from_hex("abc"), Err(HashParseError::OddLength));
    assert_eq!(Blake3Hash::from_hex("abcd"), Err(HashParseError::InvalidStringLength));
    assert_eq!(Blake3Hash::from_hex("zz"), Err(HashParseError::InvalidHexCharacter { c: 'z', index: 0 }));
}
