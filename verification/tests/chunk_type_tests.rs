use pngme::chunk_type::{ChunkType, ParseChunkTypeError};

#[test]
pub fn test_chunk_type_from_bytes() {
    let expected = [82, 117, 83, 116];
    let actual = ChunkType::from_bytes([82, 117, 83, 116]);

    assert_eq!(expected, actual.bytes());
}

#[test]
pub fn test_chunk_type_from_str() {
    let expected = ChunkType::from_bytes([82, 117, 83, 116]);
    let actual = ChunkType::from_text("RuSt").unwrap();
    assert_eq!(expected, actual);
}

#[test]
pub fn test_chunk_type_is_critical() {
    let chunk = ChunkType::from_text("RuSt").unwrap();
    assert!(chunk.is_critical());
}

#[test]
pub fn test_chunk_type_is_not_critical() {
    let chunk = ChunkType::from_text("ruSt").unwrap();
    assert!(!chunk.is_critical());
}

#[test]
pub fn test_chunk_type_is_public() {
    let chunk = ChunkType::from_text("RUSt").unwrap();
    assert!(chunk.is_public());
}

#[test]
pub fn test_chunk_type_is_not_public() {
    let chunk = ChunkType::from_text("RuSt").unwrap();
    assert!(!chunk.is_public());
}

#[test]
pub fn test_chunk_type_is_reserved_bit_valid() {
    let chunk = ChunkType::from_text("RuSt").unwrap();
    assert!(chunk.is_reserved_bit_valid());
}

#[test]
pub fn test_chunk_type_is_reserved_bit_invalid() {
    let chunk = ChunkType::from_text("Rust").unwrap();
    assert!(!chunk.is_reserved_bit_valid());
}

#[test]
pub fn test_chunk_type_is_safe_to_copy() {
    let chunk = ChunkType::from_text("RuSt").unwrap();
    assert!(chunk.is_safe_to_copy());
}

#[test]
pub fn test_chunk_type_is_unsafe_to_copy() {
    let chunk = ChunkType::from_text("RuST").unwrap();
    assert!(!chunk.is_safe_to_copy());
}

#[test]
pub fn test_valid_chunk_is_valid() {
    let chunk = ChunkType::from_text("RuSt").unwrap();
    assert!(chunk.is_valid());
}

#[test]
pub fn test_invalid_chunk_is_valid() {
    let chunk = ChunkType::from_text("Rust").unwrap();
    assert!(!chunk.is_valid());

    let chunk = ChunkType::from_text("Ru1t");
    assert!(chunk.is_err());
}

#[test]
pub fn test_chunk_type_string() {
    let chunk = ChunkType::from_text("RuSt").unwrap();
    assert_eq!(&chunk.to_text(), "RuSt");
}

#[test]
pub fn test_chunk_type_trait_impls() {
    let chunk_type_1: ChunkType = ChunkType::from_bytes([82, 117, 83, 116]);
    let chunk_type_2: ChunkType = ChunkType::from_text("RuSt").unwrap();
    let _chunk_string = format!("{:?}", chunk_type_1);
    let _are_chunks_equal = chunk_type_1 == chunk_type_2;
}

#[test]
pub fn test_from_invalid_string() {
    let result: Result<ChunkType, ParseChunkTypeError> = ChunkType::from_text("RuStAbc");
    assert!(matches!(
        result,
        Err(ParseChunkTypeError::InvalidLength { found: 7 })
    ));
}

#[test]
pub fn test_from_text_invalid_byte_reports_first_offender() {
    let result = ChunkType::from_text("Ru1t");
    assert!(matches!(result, Err(ParseChunkTypeError::InvalidByte('1'))));

    let result = ChunkType::from_text("R 1t");
    assert!(matches!(result, Err(ParseChunkTypeError::InvalidByte(' '))));
}

#[test]
pub fn test_from_text_wrong_lengths() {
    assert!(matches!(
        ChunkType::from_text("abc"),
        Err(ParseChunkTypeError::InvalidLength { found: 3 })
    ));
    assert!(matches!(
        ChunkType::from_text(""),
        Err(ParseChunkTypeError::InvalidLength { found: 0 })
    ));
}

#[test]
pub fn test_property_bits_of_rust_variants() {
    let t = ChunkType::from_text("RuSt").unwrap();
    assert!(t.is_critical());
    assert!(!t.is_public());
    assert!(t.is_reserved_bit_valid());
    assert!(t.is_safe_to_copy());

    let t = ChunkType::from_text("RUSt").unwrap();
    assert!(t.is_public());
}

#[test]
pub fn test_from_bytes_accepts_any_bytes() {
    let t = ChunkType::from_bytes([0, 255, 7, 200]);
    assert_eq!(t.bytes(), [0, 255, 7, 200]);
    assert!(!t.is_valid());
}
