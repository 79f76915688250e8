use sha2::Digest;
use wasm_registry::registry::Registry;
use wasm_registry::types::{
    BatchOperation, CommitBatchArguments, CreateRegistryEntryArguments, RegistryError,
    SetAssetContentArguments, BATCH_EXPIRY_NANOS, CHUNK_SIZE,
};

fn sha256_of(bytes: &[u8]) -> [u8; 32] {
    sha2::Sha256::digest(bytes).into()
}

fn payload(rec: &wasm_registry::types::WasmAssetChunk) -> Vec<u8> {
    rec.content[..rec.length].to_vec()
}

#[test]
fn upload_and_commit_roundtrip() {
    // Declare object "m1" with totalLength 700 KiB, upload a full chunk and
    // a 200 KiB chunk, commit, and read both back.
    let mut reg = Registry::new();
    let chunk_a: Vec<u8> = vec![0xAAu8; CHUNK_SIZE];
    let chunk_b: Vec<u8> = vec![0xBBu8; 200 * 1024];
    let mut whole = chunk_a.clone();
    whole.extend_from_slice(&chunk_b);
    let digest = sha256_of(&whole);

    reg.do_create_asset("m1".to_string(), (700 * 1024) as u64, digest, 5);
    let batch = reg.create_batch(10);
    let id_a = reg.create_chunk(batch, chunk_a.clone(), 11).unwrap();
    let id_b = reg.create_chunk(batch, chunk_b.clone(), 12).unwrap();
    assert!(id_a < id_b);

    assert_eq!(reg.do_set_asset_content(&"m1".to_string(), batch, 13), Ok(()));

    let rec0 = reg.get_chunk(&"m1".to_string(), 0).unwrap();
    assert_eq!(rec0.content.len(), CHUNK_SIZE);
    assert_eq!(payload(&rec0), chunk_a);
    let rec1 = reg.get_chunk(&"m1".to_string(), 1).unwrap();
    assert_eq!(rec1.content.len(), CHUNK_SIZE);
    assert_eq!(rec1.length, 200 * 1024);
    assert_eq!(payload(&rec1), chunk_b);
    assert!(matches!(
        reg.get_chunk(&"m1".to_string(), 2),
        Err(RegistryError::ChunkNotFound)
    ));

    // The batch is gone after a successful commit.
    assert_eq!(
        reg.do_set_asset_content(&"m1".to_string(), batch, 14),
        Err(RegistryError::BatchNotFound)
    );
}

#[test]
fn oversized_chunk_is_rejected_and_batch_survives() {
    let mut reg = Registry::new();
    let batch = reg.create_batch(0);
    let too_big: Vec<u8> = vec![1u8; CHUNK_SIZE + 1];
    assert_eq!(
        reg.create_chunk(batch, too_big, 1),
        Err(RegistryError::ContentTooLarge)
    );
    // A subsequent valid admit to the same batch still succeeds.
    let ok: Vec<u8> = vec![2u8; 16];
    assert!(reg.create_chunk(batch, ok, 2).is_ok());
}

#[test]
fn object_size_bound_is_enforced() {
    let mut reg = Registry::new();
    let batch = reg.create_batch(0);
    let full: Vec<u8> = vec![3u8; CHUNK_SIZE];
    reg.create_chunk(batch, full.clone(), 1).unwrap();
    reg.create_chunk(batch, full.clone(), 2).unwrap();
    // A third full chunk would exceed MAX_WASM_SIZE.
    assert_eq!(
        reg.create_chunk(batch, full, 3),
        Err(RegistryError::ObjectTooLarge)
    );
}

#[test]
fn commit_against_wrong_digest_fails_and_keeps_durable_state() {
    let mut reg = Registry::new();
    let data: Vec<u8> = vec![7u8; 1000];
    let good = sha256_of(&data);

    // First, store a valid version of the object.
    reg.do_create_asset("obj".to_string(), 1000, good, 0);
    let b1 = reg.create_batch(1);
    reg.create_chunk(b1, data.clone(), 2).unwrap();
    assert_eq!(reg.do_set_asset_content(&"obj".to_string(), b1, 3), Ok(()));

    // Now declare a digest that does not match the re-uploaded bytes.
    let other: Vec<u8> = vec![8u8; 1000];
    reg.do_create_asset("obj".to_string(), 1000, sha256_of(&data), 4);
    let b2 = reg.create_batch(5);
    reg.create_chunk(b2, other, 6).unwrap();
    assert_eq!(
        reg.do_set_asset_content(&"obj".to_string(), b2, 7),
        Err(RegistryError::IntegrityMismatch)
    );
    // The batch no longer exists.
    assert_eq!(
        reg.do_set_asset_content(&"obj".to_string(), b2, 8),
        Err(RegistryError::BatchNotFound)
    );
    // Durable state still holds the first version.
    let rec = reg.get_chunk(&"obj".to_string(), 0).unwrap();
    assert_eq!(payload(&rec), data);
}

#[test]
fn commit_with_wrong_total_length_fails() {
    let mut reg = Registry::new();
    let data: Vec<u8> = vec![9u8; 512];
    reg.do_create_asset("len".to_string(), 513, sha256_of(&data), 0);
    let b = reg.create_batch(1);
    reg.create_chunk(b, data, 2).unwrap();
    assert_eq!(
        reg.do_set_asset_content(&"len".to_string(), b, 3),
        Err(RegistryError::IntegrityMismatch)
    );
}

#[test]
fn short_non_final_chunk_fails_with_bad_chunks() {
    let mut reg = Registry::new();
    let short: Vec<u8> = vec![1u8; 100];
    let full: Vec<u8> = vec![2u8; CHUNK_SIZE];
    let mut whole = short.clone();
    whole.extend_from_slice(&full);
    reg.do_create_asset("bad".to_string(), whole.len() as u64, sha256_of(&whole), 0);
    let b = reg.create_batch(1);
    reg.create_chunk(b, short, 2).unwrap();
    reg.create_chunk(b, full, 3).unwrap();
    assert_eq!(
        reg.do_set_asset_content(&"bad".to_string(), b, 4),
        Err(RegistryError::BadChunks)
    );
}

#[test]
fn missing_metadata_fails_commit() {
    let mut reg = Registry::new();
    let b = reg.create_batch(0);
    reg.create_chunk(b, vec![1u8; 10], 1).unwrap();
    assert_eq!(
        reg.do_set_asset_content(&"nobody".to_string(), b, 2),
        Err(RegistryError::MetadataNotFound)
    );
}

#[test]
fn unknown_batch_fails_commit_and_admit() {
    let mut reg = Registry::new();
    reg.do_create_asset("x".to_string(), 1, sha256_of(&[1u8]), 0);
    assert_eq!(
        reg.do_set_asset_content(&"x".to_string(), 77, 1),
        Err(RegistryError::BatchNotFound)
    );
    assert_eq!(
        reg.create_chunk(77, vec![1u8], 1),
        Err(RegistryError::BatchNotFound)
    );
}

#[test]
fn expired_batch_is_unreachable_and_purged() {
    let mut reg = Registry::new();
    let b = reg.create_batch(0);
    reg.create_chunk(b, vec![5u8; 10], 1).unwrap();
    let after_expiry = 1 + BATCH_EXPIRY_NANOS;
    // The sliding window has elapsed: the batch is gone for both admits and
    // commits.
    assert_eq!(
        reg.create_chunk(b, vec![5u8; 10], after_expiry),
        Err(RegistryError::BatchNotFound)
    );
    reg.do_create_asset("e".to_string(), 10, sha256_of(&[5u8; 10]), 0);
    assert_eq!(
        reg.do_set_asset_content(&"e".to_string(), b, after_expiry),
        Err(RegistryError::BatchNotFound)
    );
    // The next batch opening sweeps it out; the batch stays unreachable.
    let b2 = reg.create_batch(after_expiry);
    assert_ne!(b, b2);
    assert_eq!(
        reg.do_set_asset_content(&"e".to_string(), b, after_expiry + 1),
        Err(RegistryError::BatchNotFound)
    );
}

#[test]
fn activity_slides_the_expiry_window() {
    let mut reg = Registry::new();
    let b = reg.create_batch(0);
    // Touch the batch close to its expiry; the window slides.
    let t1 = BATCH_EXPIRY_NANOS - 1;
    reg.create_chunk(b, vec![1u8; 1], t1).unwrap();
    let t2 = t1 + BATCH_EXPIRY_NANOS - 1;
    assert!(reg.create_chunk(b, vec![2u8; 1], t2).is_ok());
}

#[test]
fn recommit_with_fewer_chunks_removes_stale_records() {
    let mut reg = Registry::new();
    let full: Vec<u8> = vec![4u8; CHUNK_SIZE];
    let tail: Vec<u8> = vec![5u8; 64];
    let mut whole = full.clone();
    whole.extend_from_slice(&tail);

    reg.do_create_asset("w".to_string(), whole.len() as u64, sha256_of(&whole), 0);
    let b1 = reg.create_batch(1);
    reg.create_chunk(b1, full, 2).unwrap();
    reg.create_chunk(b1, tail, 3).unwrap();
    assert_eq!(reg.do_set_asset_content(&"w".to_string(), b1, 4), Ok(()));
    assert!(reg.get_chunk(&"w".to_string(), 1).is_ok());

    // Re-commit the same object with a single, smaller chunk.
    let small: Vec<u8> = vec![6u8; 128];
    reg.do_create_asset("w".to_string(), 128, sha256_of(&small), 5);
    let b2 = reg.create_batch(6);
    reg.create_chunk(b2, small.clone(), 7).unwrap();
    assert_eq!(reg.do_set_asset_content(&"w".to_string(), b2, 8), Ok(()));

    let rec = reg.get_chunk(&"w".to_string(), 0).unwrap();
    assert_eq!(payload(&rec), small);
    assert!(matches!(
        reg.get_chunk(&"w".to_string(), 1),
        Err(RegistryError::ChunkNotFound)
    ));
}

#[test]
fn commit_batch_runs_declared_operations() {
    let mut reg = Registry::new();
    let data: Vec<u8> = vec![0x42u8; 300];
    let batch = reg.create_batch(0);
    reg.create_chunk(batch, data.clone(), 1).unwrap();
    let arg = CommitBatchArguments {
        batch_id: batch,
        operations: vec![
            BatchOperation::CreateAsset(CreateRegistryEntryArguments {
                wasm_id: "cb".to_string(),
                batch_id: batch,
                total_length: 300,
                sha256: sha256_of(&data),
            }),
            BatchOperation::SetAssetContent(SetAssetContentArguments {
                wasm_id: "cb".to_string(),
                batch_id: batch,
            }),
        ],
    };
    assert_eq!(reg.commit_batch(arg, 2), Ok(()));
    let rec = reg.get_chunk(&"cb".to_string(), 0).unwrap();
    assert_eq!(payload(&rec), data);
}

#[test]
fn commit_batch_reports_the_first_failure() {
    let mut reg = Registry::new();
    let arg = CommitBatchArguments {
        batch_id: 9,
        operations: vec![BatchOperation::SetAssetContent(SetAssetContentArguments {
            wasm_id: "none".to_string(),
            batch_id: 9,
        })],
    };
    assert_eq!(reg.commit_batch(arg, 0), Err(RegistryError::BatchNotFound));
}

#[test]
fn declared_metadata_is_overwritten_by_redeclaration() {
    let mut reg = Registry::new();
    let data: Vec<u8> = vec![1u8; 10];
    // First declaration carries a digest that will not match.
    reg.do_create_asset("m".to_string(), 10, [0u8; 32], 0);
    // The overwrite fixes it.
    reg.do_create_asset("m".to_string(), 10, sha256_of(&data), 1);
    let b = reg.create_batch(2);
    reg.create_chunk(b, data, 3).unwrap();
    assert_eq!(reg.do_set_asset_content(&"m".to_string(), b, 4), Ok(()));
}

#[test]
fn authorization_gate() {
    let mut reg = Registry::new();
    let installer = vec![1u8, 2, 3];
    let friend = vec![4u8, 5];
    let stranger = vec![6u8];

    assert!(reg.is_authorized(&installer).is_err());
    reg.init(&installer);
    assert!(reg.is_authorized(&installer).is_ok());

    // A stranger cannot grant membership.
    reg.authorize(&stranger, &friend);
    assert!(reg.is_authorized(&friend).is_err());

    // A member can.
    reg.authorize(&installer, &friend);
    assert!(reg.is_authorized(&friend).is_ok());

    // Granting an existing membership is a silent no-op.
    reg.authorize(&installer, &friend);
    assert!(reg.is_authorized(&friend).is_ok());
    assert_eq!(
        reg.is_authorized(&stranger).unwrap_err(),
        "Caller is not authorized"
    );
}

#[test]
fn error_texts_match_the_reported_diagnostics() {
    assert_eq!(RegistryError::BatchNotFound.text(), "batch not found");
    assert_eq!(RegistryError::ContentTooLarge.text(), "content too large");
    assert_eq!(
        RegistryError::ObjectTooLarge.text(),
        "total wasm size too large"
    );
    assert_eq!(RegistryError::BadChunks.text(), "bad chunks");
    assert_eq!(RegistryError::IntegrityMismatch.text(), "sha256 mismatch");
    assert_eq!(
        RegistryError::MetadataNotFound.text(),
        "wasm metadata not found"
    );
}

#[test]
fn empty_batch_commits_to_an_empty_object() {
    let mut reg = Registry::new();
    reg.do_create_asset("z".to_string(), 0, sha256_of(&[]), 0);
    let b = reg.create_batch(1);
    assert_eq!(reg.do_set_asset_content(&"z".to_string(), b, 2), Ok(()));
    assert!(matches!(
        reg.get_chunk(&"z".to_string(), 0),
        Err(RegistryError::ChunkNotFound)
    ));
}

#[test]
fn trailing_empty_chunk_fails_with_bad_chunks() {
    let mut reg = Registry::new();
    let full: Vec<u8> = vec![1u8; CHUNK_SIZE];
    // The digest of the full chunk alone also matches the concatenation
    // with an empty trailing chunk, so only the shape check can refuse it.
    reg.do_create_asset("t".to_string(), CHUNK_SIZE as u64, sha256_of(&full), 0);
    let b = reg.create_batch(1);
    reg.create_chunk(b, full, 2).unwrap();
    reg.create_chunk(b, Vec::new(), 3).unwrap();
    assert_eq!(
        reg.do_set_asset_content(&"t".to_string(), b, 4),
        Err(RegistryError::BadChunks)
    );
}
