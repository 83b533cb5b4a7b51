use lithos_core::compression::{compress, decompress, DecompressionError};

#[test]
fn compression_roundtrip() {
    let original = "hello world".repeat(100);
    let compressed = compress(&original).expect("compression failed");
    let decompressed = decompress(&compressed).expect("decompression failed");

    assert_eq!(original, decompressed);
    assert!(compressed.len() < original.len(), "Compression should reduce size for repetitive data");
}

#[test]
fn compression_reduces_size() {
    let content = "a".repeat(1000);
    let compressed = compress(&content).expect("compression failed");
    let expected_max_size = 100;
    assert!(
        compressed.len() < expected_max_size,
        "Compression ratio should be at least 10x for highly repetitive data"
    );
}

#[test]
fn decompress_empty() {
    let compressed = compress("").expect("compression failed");
    let decompressed = decompress(&compressed).expect("decompression failed");
    assert_eq!(decompressed, "");
}

#[test]
fn decompress_rejects_non_zstd_input() {
    assert!(matches!(decompress(b"not zstd"), Err(DecompressionError::Io(_))));
}
