use pngme::chunk::{Chunk, ParseChunkError};
use pngme::chunk_type::ChunkType;

fn chunk_bytes(chunk_type: &[u8], message: &[u8], crc: u32) -> Vec<u8> {
    let data_length = message.len() as u32;
    data_length
        .to_be_bytes()
        .iter()
        .chain(chunk_type.iter())
        .chain(message.iter())
        .chain(crc.to_be_bytes().iter())
        .copied()
        .collect()
}

fn testing_chunk() -> Chunk {
    let chunk_data = chunk_bytes(
        "RuSt".as_bytes(),
        "This is where your secret message will be!".as_bytes(),
        2882656334,
    );
    Chunk::parse(&chunk_data).unwrap()
}

#[test]
fn test_new_chunk() {
    let chunk_type = ChunkType::from_text("RuSt").unwrap();
    let data = "This is where your secret message will be!"
        .as_bytes()
        .to_vec();
    let chunk = Chunk::new(chunk_type, data);
    assert_eq!(chunk.length(), 42);
    assert_eq!(chunk.crc(), 2882656334);
}

#[test]
fn test_chunk_length() {
    let chunk = testing_chunk();
    assert_eq!(chunk.length(), 42);
}

#[test]
fn test_chunk_type() {
    let chunk = testing_chunk();
    assert_eq!(chunk.chunk_type().to_text(), String::from("RuSt"));
}

#[test]
fn test_chunk_string() {
    let chunk = testing_chunk();
    let chunk_string = chunk.data_as_string().unwrap();
    let expected_chunk_string = String::from("This is where your secret message will be!");
    assert_eq!(chunk_string, expected_chunk_string);
}

#[test]
fn test_chunk_crc() {
    let chunk = testing_chunk();
    assert_eq!(chunk.crc(), 2882656334);
}

#[test]
fn test_valid_chunk_from_bytes() {
    let chunk_data = chunk_bytes(
        "RuSt".as_bytes(),
        "This is where your secret message will be!".as_bytes(),
        2882656334,
    );

    let chunk = Chunk::parse(&chunk_data).unwrap();

    let chunk_string = chunk.data_as_string().unwrap();
    let expected_chunk_string = String::from("This is where your secret message will be!");

    assert_eq!(chunk.length(), 42);
    assert_eq!(chunk.chunk_type().to_text(), String::from("RuSt"));
    assert_eq!(chunk_string, expected_chunk_string);
    assert_eq!(chunk.crc(), 2882656334);
}

#[test]
fn test_invalid_chunk_from_bytes() {
    let chunk_data = chunk_bytes(
        "RuSt".as_bytes(),
        "This is where your secret message will be!".as_bytes(),
        2882656333,
    );

    let chunk = Chunk::parse(&chunk_data);

    assert!(chunk.is_err());
}

#[test]
pub fn test_chunk_trait_impls() {
    let chunk_data = chunk_bytes(
        "RuSt".as_bytes(),
        "This is where your secret message will be!".as_bytes(),
        2882656334,
    );

    let chunk: Chunk = Chunk::parse(&chunk_data).unwrap();

    let _chunk_string = format!("{:?}", chunk);
}

#[test]
fn test_chunk_serialize_round_trip() {
    let chunk_type = ChunkType::from_text("teSt").unwrap();
    let chunk = Chunk::new(chunk_type, vec![1, 2, 3, 250, 0, 9]);
    let bytes = chunk.as_bytes();
    let back = Chunk::parse(&bytes).unwrap();
    assert_eq!(back.chunk_type().bytes(), chunk.chunk_type().bytes());
    assert_eq!(back.data(), chunk.data());
    assert_eq!(back.crc(), chunk.crc());
    assert_eq!(back.length(), chunk.length());
}

#[test]
fn test_chunk_empty_payload() {
    let chunk_type = ChunkType::from_text("teSt").unwrap();
    let chunk = Chunk::new(chunk_type, Vec::new());
    assert_eq!(chunk.length(), 0);
    let bytes = chunk.as_bytes();
    assert_eq!(bytes.len(), 12);
    let back = Chunk::parse(&bytes).unwrap();
    assert_eq!(back.length(), 0);
    assert_eq!(back.data_as_string().unwrap(), "");
}

#[test]
fn test_chunk_parse_truncation_errors() {
    assert!(matches!(
        Chunk::parse(&vec![0, 0]),
        Err(ParseChunkError::LengthNotFound)
    ));
    assert!(matches!(
        Chunk::parse(&vec![0, 0, 0, 0, 82, 117]),
        Err(ParseChunkError::ChunkTypeNotFound)
    ));
    assert!(matches!(
        Chunk::parse(&vec![0, 0, 0, 5, 82, 117, 83, 116]),
        Err(ParseChunkError::MessageNotFound)
    ));
    assert!(matches!(
        Chunk::parse(&vec![0, 0, 0, 0, 82, 117, 83, 116, 1, 2]),
        Err(ParseChunkError::CrcNotFound)
    ));
}

#[test]
fn test_chunk_parse_invalid_crc_error() {
    let chunk_data = chunk_bytes("RuSt".as_bytes(), "hi".as_bytes(), 0);
    assert!(matches!(
        Chunk::parse(&chunk_data),
        Err(ParseChunkError::InvalidCrc)
    ));
}

#[test]
fn test_chunk_crc_bit_flips_detected() {
    let message = "This is where your secret message will be!".as_bytes();
    let chunk_data = chunk_bytes("RuSt".as_bytes(), message, 2882656334);
    // Flip each single bit of the type and payload regions in turn, leaving
    // the stored checksum in place: every such corruption must be rejected
    // as an invalid checksum.
    for byte_index in 4..(8 + message.len()) {
        for bit in 0..8 {
            let mut corrupted = chunk_data.clone();
            corrupted[byte_index] ^= 1u8 << bit;
            let result = Chunk::parse(&corrupted);
            assert!(matches!(result, Err(ParseChunkError::InvalidCrc)));
        }
    }
}

#[test]
fn test_chunk_latin1_payload_text() {
    let chunk_type = ChunkType::from_text("teSt").unwrap();
    let chunk = Chunk::new(chunk_type, vec![72, 105, 200]);
    let text = chunk.data_as_string().unwrap();
    let expected: String = vec![72u8 as char, 105u8 as char, 200u8 as char]
        .into_iter()
        .collect();
    assert_eq!(text, expected);
}
