//! The decoder against buffers built by the encoder and by hand: round
//! trips, the magic check, nested arrays, and each failure kind.

use safetensors_explorer::encode::encode_file;
use safetensors_explorer::ggml::GGMLType;
use safetensors_explorer::gguf::{
    DecodeError, GGUFFile, GGUFMetadataEntry, GGUFTensorInfo, GGUFValue,
};
use safetensors_explorer::GGUF_MAGIC;

fn sample_metadata() -> Vec<GGUFMetadataEntry> {
    vec![
        GGUFMetadataEntry {
            key: "general.name".to_string(),
            value: GGUFValue::Str("tiny model".to_string()),
        },
        GGUFMetadataEntry {
            key: "general.count".to_string(),
            value: GGUFValue::U32(7),
        },
        GGUFMetadataEntry {
            key: "general.bias".to_string(),
            value: GGUFValue::I16(-42),
        },
        GGUFMetadataEntry {
            key: "general.pi_bits".to_string(),
            value: GGUFValue::F32Bits(0x4049_0FDB),
        },
        GGUFMetadataEntry {
            key: "general.flags".to_string(),
            value: GGUFValue::Array(vec![GGUFValue::Bool(true), GGUFValue::Bool(false)]),
        },
    ]
}

fn sample_tensors() -> Vec<GGUFTensorInfo> {
    vec![
        GGUFTensorInfo {
            name: "layer.0.attn.weight".to_string(),
            dimensions: vec![4096, 4096],
            tensor_type: GGMLType::Q4_0,
            offset: 0,
        },
        GGUFTensorInfo {
            name: "output.bias".to_string(),
            dimensions: vec![32000],
            tensor_type: GGMLType::F32,
            offset: 9437184,
        },
    ]
}

#[test]
fn round_trip_recovers_everything() {
    let metadata = sample_metadata();
    let tensors = sample_tensors();
    let bytes = encode_file(3, &metadata, &tensors);
    let file = GGUFFile::read(&bytes).expect("decode");
    assert_eq!(file.header.magic, GGUF_MAGIC);
    assert_eq!(file.header.version, 3);
    assert_eq!(file.header.tensor_count, 2);
    assert_eq!(file.header.metadata_kv_count, 5);
    assert_eq!(file.metadata, metadata);
    assert_eq!(file.tensors, tensors);
}

#[test]
fn round_trip_empty_file() {
    let bytes = encode_file(2, &Vec::new(), &Vec::new());
    assert_eq!(bytes.len(), 24);
    let file = GGUFFile::read(&bytes).expect("decode");
    assert_eq!(file.header.tensor_count, 0);
    assert_eq!(file.header.metadata_kv_count, 0);
    assert!(file.metadata.is_empty());
    assert!(file.tensors.is_empty());
}

#[test]
fn round_trip_every_scalar_kind() {
    let metadata = vec![
        GGUFMetadataEntry { key: "a".to_string(), value: GGUFValue::U8(255) },
        GGUFMetadataEntry { key: "b".to_string(), value: GGUFValue::I8(-128) },
        GGUFMetadataEntry { key: "c".to_string(), value: GGUFValue::U16(65535) },
        GGUFMetadataEntry { key: "d".to_string(), value: GGUFValue::I16(-32768) },
        GGUFMetadataEntry { key: "e".to_string(), value: GGUFValue::U32(4294967295) },
        GGUFMetadataEntry { key: "f".to_string(), value: GGUFValue::I32(-2147483648) },
        GGUFMetadataEntry { key: "g".to_string(), value: GGUFValue::F32Bits(0x7F80_0000) },
        GGUFMetadataEntry { key: "h".to_string(), value: GGUFValue::Bool(true) },
        GGUFMetadataEntry { key: "i".to_string(), value: GGUFValue::Str(String::new()) },
        GGUFMetadataEntry { key: "j".to_string(), value: GGUFValue::U64(u64::MAX) },
        GGUFMetadataEntry { key: "k".to_string(), value: GGUFValue::I64(i64::MIN) },
        GGUFMetadataEntry { key: "l".to_string(), value: GGUFValue::F64Bits(0x3FF0_0000_0000_0000) },
    ];
    let bytes = encode_file(3, &metadata, &Vec::new());
    let file = GGUFFile::read(&bytes).expect("decode");
    assert_eq!(file.metadata, metadata);
}

#[test]
fn nested_arrays_decode_in_order() {
    let inner = |a: u32, b: u32| GGUFValue::Array(vec![GGUFValue::U32(a), GGUFValue::U32(b)]);
    let outer = GGUFValue::Array(vec![inner(1, 2), inner(3, 4), inner(5, 6)]);
    let metadata = vec![GGUFMetadataEntry { key: "m".to_string(), value: outer }];
    let bytes = encode_file(3, &metadata, &Vec::new());
    let file = GGUFFile::read(&bytes).expect("decode");
    match &file.metadata[0].value {
        GGUFValue::Array(rows) => {
            assert_eq!(rows.len(), 3);
            for (i, row) in rows.iter().enumerate() {
                match row {
                    GGUFValue::Array(cells) => {
                        assert_eq!(cells.len(), 2);
                        assert_eq!(
                            cells[0],
                            GGUFValue::U32((2 * i + 1) as u32),
                            "outer order kept"
                        );
                        assert_eq!(cells[1], GGUFValue::U32((2 * i + 2) as u32));
                    }
                    other => panic!("expected inner array, got {:?}", other),
                }
            }
        }
        other => panic!("expected array, got {:?}", other),
    }
}

#[test]
fn bad_magic_fails_whatever_follows() {
    let mut bytes = encode_file(3, &sample_metadata(), &sample_tensors());
    bytes[0] = b'X';
    match GGUFFile::read(&bytes) {
        Err(DecodeError::MagicMismatch { found }) => {
            assert_eq!(found, u32::from_le_bytes([b'X', b'G', b'U', b'F']));
        }
        other => panic!("expected MagicMismatch, got {:?}", other),
    }
    // Four junk bytes alone are already a magic mismatch.
    let short = vec![1u8, 2, 3, 4];
    assert!(matches!(
        GGUFFile::read(&short),
        Err(DecodeError::MagicMismatch { .. })
    ));
}

fn header_bytes(version: u32, tensor_count: u64, kv_count: u64) -> Vec<u8> {
    let mut b = Vec::new();
    b.extend_from_slice(&GGUF_MAGIC.to_le_bytes());
    b.extend_from_slice(&version.to_le_bytes());
    b.extend_from_slice(&tensor_count.to_le_bytes());
    b.extend_from_slice(&kv_count.to_le_bytes());
    b
}

#[test]
fn truncated_mid_string_length_is_truncated_input() {
    let mut bytes = header_bytes(3, 0, 1);
    // The entry's key-length field starts at offset 24 but only 3 of its 8
    // bytes are present.
    bytes.extend_from_slice(&[5, 0, 0]);
    match GGUFFile::read(&bytes) {
        Err(DecodeError::TruncatedInput { offset }) => assert_eq!(offset, 24),
        other => panic!("expected TruncatedInput, got {:?}", other),
    }
}

#[test]
fn truncated_header_is_truncated_input() {
    let bytes = vec![b'G', b'G', b'U', b'F', 3, 0];
    assert!(matches!(
        GGUFFile::read(&bytes),
        Err(DecodeError::TruncatedInput { .. })
    ));
}

#[test]
fn truncated_string_content_is_truncated_input() {
    let mut bytes = header_bytes(3, 0, 1);
    bytes.extend_from_slice(&100u64.to_le_bytes());
    bytes.extend_from_slice(b"shor");
    assert!(matches!(
        GGUFFile::read(&bytes),
        Err(DecodeError::TruncatedInput { offset: 24 })
    ));
}

#[test]
fn unknown_value_tag_is_reported_with_its_offset() {
    let mut bytes = header_bytes(3, 0, 1);
    bytes.extend_from_slice(&1u64.to_le_bytes());
    bytes.push(b'k');
    bytes.extend_from_slice(&13u32.to_le_bytes());
    match GGUFFile::read(&bytes) {
        Err(DecodeError::UnknownTypeTag { tag, offset }) => {
            assert_eq!(tag, 13);
            assert_eq!(offset, 24 + 8 + 1);
        }
        other => panic!("expected UnknownTypeTag, got {:?}", other),
    }
}

#[test]
fn unknown_encoding_tag_is_reported() {
    let mut bytes = header_bytes(3, 1, 0);
    bytes.extend_from_slice(&1u64.to_le_bytes());
    bytes.push(b't');
    bytes.extend_from_slice(&0u32.to_le_bytes()); // no dimensions
    bytes.extend_from_slice(&99u32.to_le_bytes()); // not in the catalog
    bytes.extend_from_slice(&0u64.to_le_bytes());
    match GGUFFile::read(&bytes) {
        Err(DecodeError::UnknownEncodingTag { tag, offset }) => {
            assert_eq!(tag, 99);
            assert_eq!(offset, 24 + 8 + 1 + 4);
        }
        other => panic!("expected UnknownEncodingTag, got {:?}", other),
    }
}

#[test]
fn invalid_utf8_key_is_invalid_utf8() {
    let mut bytes = header_bytes(3, 0, 1);
    bytes.extend_from_slice(&2u64.to_le_bytes());
    bytes.extend_from_slice(&[0xFF, 0xFE]);
    assert!(matches!(
        GGUFFile::read(&bytes),
        Err(DecodeError::InvalidUtf8 { offset: 24 })
    ));
}

#[test]
fn bool_decodes_nonzero_as_true() {
    let mut bytes = header_bytes(3, 0, 1);
    bytes.extend_from_slice(&1u64.to_le_bytes());
    bytes.push(b'b');
    bytes.extend_from_slice(&7u32.to_le_bytes()); // bool tag
    bytes.push(3); // nonzero
    let file = GGUFFile::read(&bytes).expect("decode");
    assert_eq!(file.metadata[0].value, GGUFValue::Bool(true));
}

#[test]
fn payload_bytes_after_the_records_are_ignored() {
    let mut bytes = encode_file(3, &Vec::new(), &sample_tensors());
    bytes.extend_from_slice(&[0u8; 256]); // unread payload region
    let file = GGUFFile::read(&bytes).expect("decode");
    assert_eq!(file.tensors, sample_tensors());
}
