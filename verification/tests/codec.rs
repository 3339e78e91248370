use xerj_autoindex::codec::{get_codec, Codec, CodecError, CompressionLevel, Lz4Codec, NoneCodec, ZstdCodec};

const PAYLOAD: &[u8] = b"hello world this is a test payload that should compress well \
    because it has repeated patterns repeated patterns repeated patterns";

#[test]
fn none_roundtrip() {
    let codec = NoneCodec;
    let compressed = codec.compress(PAYLOAD).unwrap();
    let decompressed = codec.decompress(&compressed, PAYLOAD.len()).unwrap();
    assert_eq!(decompressed, PAYLOAD);
}

#[test]
fn lz4_roundtrip() {
    let codec = Lz4Codec;
    let compressed = codec.compress(PAYLOAD).unwrap();
    let decompressed = codec.decompress(&compressed, PAYLOAD.len()).unwrap();
    assert_eq!(decompressed, PAYLOAD);
}

#[test]
fn lz4_reduces_size() {
    let codec = Lz4Codec;
    let compressed = codec.compress(PAYLOAD).unwrap();
    assert!(compressed.len() < PAYLOAD.len(), "LZ4 should compress repetitive data");
}

#[test]
fn zstd_balanced_roundtrip() {
    let codec = ZstdCodec::balanced();
    let compressed = codec.compress(PAYLOAD).unwrap();
    let decompressed = codec.decompress(&compressed, PAYLOAD.len()).unwrap();
    assert_eq!(decompressed, PAYLOAD);
}

#[test]
fn zstd_best_roundtrip() {
    let codec = ZstdCodec::best();
    let compressed = codec.compress(PAYLOAD).unwrap();
    let decompressed = codec.decompress(&compressed, PAYLOAD.len()).unwrap();
    assert_eq!(decompressed, PAYLOAD);
}

#[test]
fn get_codec_factory() {
    for level in [
        CompressionLevel::Uncompressed,
        CompressionLevel::Fast,
        CompressionLevel::Balanced,
        CompressionLevel::Best,
    ] {
        let codec = get_codec(level);
        let compressed = codec.compress(PAYLOAD).unwrap();
        let decompressed = codec.decompress(&compressed, PAYLOAD.len()).unwrap();
        assert_eq!(decompressed, PAYLOAD, "roundtrip failed for {level:?}");
    }
}

#[test]
fn levels_parse_case_insensitively() {
    assert_eq!(CompressionLevel::from_str("NONE"), Some(CompressionLevel::Uncompressed));
    assert_eq!(CompressionLevel::from_str("Fast"), Some(CompressionLevel::Fast));
    assert_eq!(CompressionLevel::from_str("balanced"), Some(CompressionLevel::Balanced));
    assert_eq!(CompressionLevel::from_str("bEsT"), Some(CompressionLevel::Best));
    assert_eq!(CompressionLevel::from_str("fastest"), None);
    assert_eq!(CompressionLevel::from_str(""), None);
    assert_eq!(CompressionLevel::default(), CompressionLevel::Fast);
}

#[test]
fn codecs_name_themselves() {
    assert_eq!(NoneCodec.name(), "none");
    assert_eq!(Lz4Codec.name(), "lz4");
    assert_eq!(ZstdCodec::new(3).name(), "zstd");
    assert_eq!(get_codec(CompressionLevel::Best).name(), "zstd");
}

#[test]
fn passthrough_refuses_a_wrong_length() {
    let codec = NoneCodec;
    assert!(codec.decompress(PAYLOAD, PAYLOAD.len() + 1).is_err());
    assert!(codec.decompress_checked(PAYLOAD, 3).is_err());
}

#[test]
fn corrupt_input_is_an_error_not_a_panic() {
    assert!(Lz4Codec.decompress(b"\x01", 10).is_err());
    assert!(ZstdCodec::balanced().decompress(b"not a zstd frame", 10).is_err());
}

#[test]
fn compressed_bytes_are_not_the_input() {
    let c = Lz4Codec.compress(PAYLOAD).unwrap();
    assert_ne!(c, PAYLOAD);
    let z = ZstdCodec::best().compress(PAYLOAD).unwrap();
    assert_ne!(z, PAYLOAD);
}

#[test]
fn input_no_codec_produced_is_refused_with_the_codecs_error() {
    let garbage = b"\x10\x00\x00\x00\xf0";
    assert_eq!(Lz4Codec.decompress(garbage, 16), Err(CodecError::Lz4Decompress));
    assert_eq!(ZstdCodec::default().decompress(garbage, 10), Err(CodecError::ZstdDecompress));
    assert_eq!(
        NoneCodec.decompress(b"abc", 4),
        Err(CodecError::LengthMismatch { expected: 4, got: 3 })
    );
    let packed = ZstdCodec::default().compress(PAYLOAD).unwrap();
    assert_eq!(
        ZstdCodec::default().decompress(&packed, PAYLOAD.len() - 1),
        Err(CodecError::ZstdDecompress),
        "the frame does not fit the capacity"
    );
}
