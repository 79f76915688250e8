use wasm_registry::codec::{
    decode_chunk, decode_metadata, encode_chunk, encode_chunk_key, encode_metadata, pad_content,
};
use wasm_registry::types::{WasmAssetChunk, WasmAssetMetadata, CHUNK_SIZE};
use wasm_registry::utils::{get, make_time, u64_to_decimal, RejectCode, StringifyErr, UnwrapOrTrap};

#[test]
fn metadata_record_layout_is_little_endian() {
    let meta = WasmAssetMetadata {
        modified: 0x0102030405060708,
        total_length: 0x1122334455667788,
        sha256: [0xCD; 32],
    };
    let bytes = encode_metadata(&meta);
    assert_eq!(bytes.len(), 48);
    assert_eq!(&bytes[0..8], &[8, 7, 6, 5, 4, 3, 2, 1]);
    assert_eq!(
        &bytes[8..16],
        &[0x88, 0x77, 0x66, 0x55, 0x44, 0x33, 0x22, 0x11]
    );
    assert_eq!(&bytes[16..48], &[0xCD; 32]);

    let back = decode_metadata(&bytes).unwrap();
    assert_eq!(back.modified, meta.modified);
    assert_eq!(back.total_length, meta.total_length);
    assert_eq!(back.sha256, meta.sha256);
}

#[test]
fn truncated_metadata_record_is_rejected() {
    let meta = WasmAssetMetadata { modified: 1, total_length: 2, sha256: [3; 32] };
    let mut bytes = encode_metadata(&meta);
    bytes.pop();
    assert!(decode_metadata(&bytes).is_none());
}

#[test]
fn chunk_record_roundtrips_with_padding() {
    let content = vec![0x5Au8; 100];
    let padded = pad_content(&content);
    assert_eq!(padded.len(), CHUNK_SIZE);
    assert_eq!(&padded[..100], &content[..]);
    assert!(padded[100..].iter().all(|b| *b == 0));

    let rec = WasmAssetChunk { content: padded, length: 100 };
    let bytes = encode_chunk(&rec);
    assert_eq!(bytes.len(), CHUNK_SIZE + 8);
    let back = decode_chunk(&bytes).unwrap();
    assert_eq!(back.length, 100);
    assert_eq!(&back.content[..100], &content[..]);
}

#[test]
fn chunk_record_with_overlong_length_is_rejected() {
    let rec = WasmAssetChunk { content: vec![0u8; CHUNK_SIZE], length: 0 };
    let mut bytes = encode_chunk(&rec);
    // Overwrite the length field with a value past the capacity.
    let bad = ((CHUNK_SIZE + 1) as u64).to_le_bytes();
    bytes.truncate(CHUNK_SIZE);
    bytes.extend_from_slice(&bad);
    assert!(decode_chunk(&bytes).is_none());
}

#[test]
fn chunk_keys_separate_objects_and_indices() {
    let key = encode_chunk_key(&"ab".to_string(), 1);
    assert_eq!(key, vec![b'a', b'b', 1, 0, 0, 0]);
    assert_ne!(
        encode_chunk_key(&"ab".to_string(), 1),
        encode_chunk_key(&"ab".to_string(), 2)
    );
    assert_ne!(
        encode_chunk_key(&"ab".to_string(), 1),
        encode_chunk_key(&"ac".to_string(), 1)
    );
}

#[test]
fn decimal_formatting() {
    assert_eq!(u64_to_decimal(0), "0");
    assert_eq!(u64_to_decimal(7), "7");
    assert_eq!(u64_to_decimal(1234567890), "1234567890");
    assert_eq!(u64_to_decimal(u64::MAX), "18446744073709551615");
}

#[test]
fn make_time_reports_whole_seconds() {
    assert_eq!(make_time(0), "0");
    assert_eq!(make_time(999_999_999), "0");
    assert_eq!(make_time(1_000_000_000), "1");
    assert_eq!(make_time(1_623_456_789_123_456_789), "1623456789");
}

#[test]
fn unwrap_or_trap_yields_the_success_value() {
    let r: Result<u32, String> = Ok(41);
    assert_eq!(r.unwrap_or_trap(), 41);
    let r2: Result<u32, String> = Ok(42);
    assert_eq!(r2.unwrap_or_trap_with_msg(Some("pre"), None), 42);
}

#[test]
fn stringify_err_flattens_the_rejection() {
    let ok: Result<u32, (RejectCode, String)> = Ok(5);
    assert_eq!(ok.stringify_err(), Ok(5));
    let err: Result<u32, (RejectCode, String)> =
        Err((RejectCode::CanisterReject, "no cycles".to_string()));
    assert_eq!(
        err.stringify_err().unwrap_err(),
        "[CanisterReject] no cycles"
    );
    let err2: Result<u32, (RejectCode, String)> =
        Err((RejectCode::SysTransient, "retry".to_string()));
    assert_eq!(err2.stringify_err().unwrap_err(), "[SysTransient] retry");
}

#[test]
fn greeting_appends_the_number() {
    assert_eq!(get(0), "Hello, world! 0");
    assert_eq!(get(7), "Hello, world! 7");
    assert_eq!(get(1234567890), "Hello, world! 1234567890");
}
