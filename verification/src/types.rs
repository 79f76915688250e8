//! Core data types of the registry: size limits, durable record shapes,
//! and the error taxonomy shared by every operation.

use vstd::prelude::*;

verus! {

/// Maximum total size of one stored object, in bytes.
pub const MAX_WASM_SIZE: usize = 1000 * 1024;

/// Size of one durable chunk record's content buffer, in bytes.  Objects are
/// split into chunks of exactly this size (the final chunk may be shorter);
/// durable records are always padded to this capacity so that every record
/// occupies a fixed-size slot.
pub const CHUNK_SIZE: usize = 500 * 1024;

/// The largest number of chunks a batch may hold: admitting a chunk fails
/// with `ObjectTooLarge` once the batch would exceed `MAX_WASM_SIZE`.
pub const MAX_CHUNK_COUNT: usize = MAX_WASM_SIZE / CHUNK_SIZE;

/// How long a batch is kept alive without activity, in nanoseconds.
/// Admitting a chunk refreshes the window.
pub const BATCH_EXPIRY_NANOS: u64 = 300_000_000_000;

/// Object ids are plain strings.
pub type Key = String;

/// Everything that can go wrong in a registry operation, surfaced
/// synchronously to the caller; nothing is retried internally.
#[derive(Clone, Copy, Debug, PartialEq, Eq, Structural)]
pub enum RegistryError {
    /// The caller is not in the authorized set.
    Unauthorized,
    /// The batch id is unknown: never issued, expired, or already committed.
    BatchNotFound,
    /// No metadata was declared for the object id before committing.
    MetadataNotFound,
    /// No durable chunk record exists at the requested index.
    ChunkNotFound,
    /// A single chunk exceeds `CHUNK_SIZE`.
    ContentTooLarge,
    /// The batch would exceed `MAX_WASM_SIZE`.
    ObjectTooLarge,
    /// A chunk other than the final one is shorter than `CHUNK_SIZE`.
    BadChunks,
    /// Recomputed length or digest disagrees with the declared metadata.
    IntegrityMismatch,
}

/// The diagnostic text of each error.
pub open spec fn spec_error_text(e: RegistryError) -> Seq<char> {
    match e {
        RegistryError::Unauthorized => "caller is not authorized"@,
        RegistryError::BatchNotFound => "batch not found"@,
        RegistryError::MetadataNotFound => "wasm metadata not found"@,
        RegistryError::ChunkNotFound => "chunk not found"@,
        RegistryError::ContentTooLarge => "content too large"@,
        RegistryError::ObjectTooLarge => "total wasm size too large"@,
        RegistryError::BadChunks => "bad chunks"@,
        RegistryError::IntegrityMismatch => "sha256 mismatch"@,
    }
}

impl RegistryError {
    /// A short diagnostic text for each error, for callers that log or trap.
    pub fn text(&self) -> (r: String)
        ensures
            r@ == spec_error_text(*self),
    {
        match self {
            RegistryError::Unauthorized => String::from_str("caller is not authorized"),
            RegistryError::BatchNotFound => String::from_str("batch not found"),
            RegistryError::MetadataNotFound => String::from_str("wasm metadata not found"),
            RegistryError::ChunkNotFound => String::from_str("chunk not found"),
            RegistryError::ContentTooLarge => String::from_str("content too large"),
            RegistryError::ObjectTooLarge => String::from_str("total wasm size too large"),
            RegistryError::BadChunks => String::from_str("bad chunks"),
            RegistryError::IntegrityMismatch => String::from_str("sha256 mismatch"),
        }
    }
}

/// Declared description of one object: set before upload, checked at commit.
#[derive(Clone, Copy, Debug)]
pub struct WasmAssetMetadata {
    /// Time the metadata was declared, in nanoseconds.
    pub modified: u64,
    /// Declared total byte length of the object.
    pub total_length: u64,
    /// Declared SHA-256 digest of the object's bytes.
    pub sha256: [u8; 32],
}

/// Mathematical image of `WasmAssetMetadata`.
#[verifier::ext_equal]
pub struct MetaView {
    pub modified: u64,
    pub total_length: u64,
    pub sha256: Seq<u8>,
}

impl View for WasmAssetMetadata {
    type V = MetaView;

    open spec fn view(&self) -> MetaView {
        MetaView { modified: self.modified, total_length: self.total_length, sha256: self.sha256@ }
    }
}

/// One durable chunk record: a content buffer of exactly `CHUNK_SIZE` bytes
/// (zero-padded past the real payload) plus the payload's actual length.
#[derive(Clone, Debug)]
pub struct WasmAssetChunk {
    /// Fixed-capacity content buffer; only the first `length` bytes are payload.
    pub content: Vec<u8>,
    /// Actual payload length, at most `CHUNK_SIZE`.
    pub length: usize,
}

/// Mathematical image of `WasmAssetChunk`.
#[verifier::ext_equal]
pub struct RecView {
    pub content: Seq<u8>,
    pub length: usize,
}

impl View for WasmAssetChunk {
    type V = RecView;

    open spec fn view(&self) -> RecView {
        RecView { content: self.content@, length: self.length }
    }
}

impl RecView {
    /// A record is well formed when its buffer has full capacity and the
    /// payload fits inside it.
    pub open spec fn wf(self) -> bool {
        &&& self.content.len() == CHUNK_SIZE
        &&& self.length <= CHUNK_SIZE
    }

    /// The real payload: the buffer with the zero padding cut off.
    pub open spec fn payload(self) -> Seq<u8> {
        self.content.take(self.length as int)
    }
}

/// The durable record shapes above form storage-schema revision 1; the alias
/// names the revision explicitly so that a future layout change introduces a
/// new name (and a new storage region) instead of reinterpreting old bytes.
pub type WasmAssetMetadataV1 = WasmAssetMetadata;

/// Schema-revision alias for `WasmAssetChunk`; see `WasmAssetMetadataV1`.
pub type WasmAssetChunkV1 = WasmAssetChunk;

/// Arguments of the metadata-declaration operation.
#[derive(Clone, Debug)]
pub struct CreateRegistryEntryArguments {
    pub wasm_id: Key,
    pub batch_id: u64,
    pub total_length: u64,
    pub sha256: [u8; 32],
}

/// Arguments of the content-commit operation.
#[derive(Clone, Debug)]
pub struct SetAssetContentArguments {
    pub wasm_id: Key,
    pub batch_id: u64,
}

/// Arguments of the encoding-removal operation (not an active operation).
#[derive(Clone, Debug)]
pub struct UnsetAssetContentArguments {
    pub key: Key,
    pub content_encoding: String,
}

/// Arguments of the asset-deletion operation (not an active operation).
#[derive(Clone, Debug)]
pub struct DeleteAssetArguments {
    pub key: Key,
}

/// Arguments of the clear operation (not an active operation).
#[derive(Clone, Debug)]
pub struct ClearArguments {}

/// One operation of a batched commit call.
#[derive(Clone, Debug)]
pub enum BatchOperation {
    CreateAsset(CreateRegistryEntryArguments),
    SetAssetContent(SetAssetContentArguments),
    UnsetAssetContent(UnsetAssetContentArguments),
    DeleteAsset(DeleteAssetArguments),
    Clear(ClearArguments),
}

/// Arguments of the batched commit call: the batch to finish and the
/// operations to run first, in order.
#[derive(Clone, Debug)]
pub struct CommitBatchArguments {
    pub batch_id: u64,
    pub operations: Vec<BatchOperation>,
}

/// Constructor arguments for one actor of a spawned canister group, carried
/// through the spawn surface; the registry core never reads them.
#[derive(Clone, Debug)]
pub struct ActorConstructorArg {
    /// Which actor the arguments belong to.
    pub actor_id: Key,
    /// Encoded constructor arguments for that actor.
    pub constructor_args: String,
}

} // verus!
