//! Explicit, versioned binary layout of the durable records.
//!
//! Every value placed in durable storage is encoded by hand into
//! little-endian fixed-width fields, so the layout is portable and
//! independent of any compiler's in-memory representation:
//!
//! * metadata record: `modified` (8 bytes) | `total_length` (8 bytes) |
//!   `sha256` (32 bytes);
//! * chunk record: content buffer (`CHUNK_SIZE` bytes) | payload length
//!   (8 bytes);
//! * chunk key: the object id's UTF-8 bytes | chunk index (4 bytes).
//!
//! Decoding is proved to invert encoding, and the key encoding is proved
//! injective, so distinct (id, index) pairs never collide in storage.

use vstd::bytes::*;
use vstd::prelude::*;
use vstd::string::*;
use vstd::utf8::*;

use crate::types::{MetaView, RecView, WasmAssetChunk, WasmAssetMetadata, CHUNK_SIZE};

verus! {

/// Encoded size of one metadata record.
pub const META_RECORD_BYTES: usize = 48;

/// Encoded size of one chunk record.
pub const CHUNK_RECORD_BYTES: usize = CHUNK_SIZE + 8;

/// Byte image of a metadata record.
pub open spec fn spec_encode_metadata(m: MetaView) -> Seq<u8> {
    spec_u64_to_le_bytes(m.modified) + spec_u64_to_le_bytes(m.total_length) + m.sha256
}

/// Meaning of a stored metadata record; `None` when the bytes are not a
/// well-formed record.
pub open spec fn spec_decode_metadata(bytes: Seq<u8>) -> Option<MetaView> {
    if bytes.len() == META_RECORD_BYTES {
        Some(
            MetaView {
                modified: spec_u64_from_le_bytes(bytes.subrange(0, 8)),
                total_length: spec_u64_from_le_bytes(bytes.subrange(8, 16)),
                sha256: bytes.subrange(16, 48),
            },
        )
    } else {
        None
    }
}

/// Byte image of a chunk record.
pub open spec fn spec_encode_chunk(r: RecView) -> Seq<u8> {
    r.content + spec_u64_to_le_bytes(r.length as u64)
}

/// Meaning of a stored chunk record; `None` when the bytes are not a
/// well-formed record.
pub open spec fn spec_decode_chunk(bytes: Seq<u8>) -> Option<RecView> {
    if bytes.len() == CHUNK_RECORD_BYTES {
        let length = spec_u64_from_le_bytes(
            bytes.subrange(CHUNK_SIZE as int, CHUNK_SIZE + 8),
        );
        if length <= CHUNK_SIZE as u64 {
            Some(
                RecView {
                    content: bytes.subrange(0, CHUNK_SIZE as int),
                    length: length as usize,
                },
            )
        } else {
            None
        }
    } else {
        None
    }
}

/// Storage key of the chunk record at `index` of the object `id`.
pub open spec fn spec_chunk_key(id: Seq<char>, index: u32) -> Seq<u8> {
    encode_utf8(id) + spec_u32_to_le_bytes(index)
}

/// Decoding a metadata record inverts encoding it.
pub proof fn lemma_metadata_roundtrip(m: MetaView)
    requires
        m.sha256.len() == 32,
    ensures
        spec_decode_metadata(spec_encode_metadata(m)) == Some(m),
{
    lemma_auto_spec_u64_to_from_le_bytes();
    let bytes = spec_encode_metadata(m);
    assert(bytes.subrange(0, 8) =~= spec_u64_to_le_bytes(m.modified));
    assert(bytes.subrange(8, 16) =~= spec_u64_to_le_bytes(m.total_length));
    assert(bytes.subrange(16, 48) =~= m.sha256);
}

/// Decoding a chunk record inverts encoding it.
pub proof fn lemma_chunk_roundtrip(r: RecView)
    requires
        r.wf(),
    ensures
        spec_decode_chunk(spec_encode_chunk(r)) == Some(r),
{
    lemma_auto_spec_u64_to_from_le_bytes();
    let bytes = spec_encode_chunk(r);
    assert(bytes.subrange(0, CHUNK_SIZE as int) =~= r.content);
    assert(bytes.subrange(CHUNK_SIZE as int, CHUNK_SIZE + 8) =~= spec_u64_to_le_bytes(
        r.length as u64,
    ));
}

/// Distinct (id, index) pairs have distinct storage keys.
pub proof fn lemma_chunk_key_injective(id1: Seq<char>, i1: u32, id2: Seq<char>, i2: u32)
    requires
        spec_chunk_key(id1, i1) == spec_chunk_key(id2, i2),
    ensures
        id1 == id2,
        i1 == i2,
{
    lemma_auto_spec_u32_to_from_le_bytes();
    let k = spec_chunk_key(id1, i1);
    let e1 = encode_utf8(id1);
    let e2 = encode_utf8(id2);
    assert(spec_u32_to_le_bytes(i1).len() == 4);
    assert(spec_u32_to_le_bytes(i2).len() == 4);
    assert(e1 + spec_u32_to_le_bytes(i1) == e2 + spec_u32_to_le_bytes(i2));
    assert(e1.len() == e2.len());
    assert(e1 =~= k.subrange(0, e1.len() as int));
    assert(e2 =~= k.subrange(0, e1.len() as int));
    assert(spec_u32_to_le_bytes(i1) =~= k.subrange(e1.len() as int, k.len() as int));
    assert(spec_u32_to_le_bytes(i2) =~= k.subrange(e1.len() as int, k.len() as int));
    broadcast use encode_utf8_decode_utf8, encode_utf8_valid_utf8;

    assert(decode_utf8(e1) == id1);
    assert(decode_utf8(e2) == id2);
}

/// Copies `src[from..to]` into a fresh vector.
fn copy_range(src: &Vec<u8>, from: usize, to: usize) -> (out: Vec<u8>)
    requires
        from <= to <= src.len(),
    ensures
        out@ == src@.subrange(from as int, to as int),
{
    let mut out: Vec<u8> = Vec::new();
    let mut i: usize = from;
    while i < to
        invariant
            from <= i <= to <= src.len(),
            out@ == src@.subrange(from as int, i as int),
        decreases to - i,
    {
        out.push(src[i]);
        i = i + 1;
        assert(out@ =~= src@.subrange(from as int, i as int));
    }
    out
}

/// Encodes a metadata record for storage.
pub fn encode_metadata(m: &WasmAssetMetadata) -> (out: Vec<u8>)
    ensures
        out@ == spec_encode_metadata(m@),
{
    proof {
        lemma_auto_spec_u64_to_from_le_bytes();
    }
    let mut out = u64_to_le_bytes(m.modified);
    let mut tl = u64_to_le_bytes(m.total_length);
    out.append(&mut tl);
    let ghost prefix = out@;
    let mut i: usize = 0;
    while i < 32
        invariant
            i <= 32,
            out@ == prefix + m.sha256@.take(i as int),
        decreases 32 - i,
    {
        out.push(m.sha256[i]);
        i = i + 1;
        assert(out@ =~= prefix + m.sha256@.take(i as int));
    }
    assert(m.sha256@.take(32) =~= m.sha256@);
    out
}

/// Decodes a stored metadata record.
pub fn decode_metadata(bytes: &Vec<u8>) -> (r: Option<WasmAssetMetadata>)
    ensures
        spec_decode_metadata(bytes@) matches Some(mv) ==> (r matches Some(m) && m@ == mv),
        spec_decode_metadata(bytes@) is None ==> r is None,
{
    if bytes.len() != META_RECORD_BYTES {
        return None;
    }
    let b0 = copy_range(bytes, 0, 8);
    let modified = u64_from_le_bytes(b0.as_slice());
    let b1 = copy_range(bytes, 8, 16);
    let total_length = u64_from_le_bytes(b1.as_slice());
    let mut sha = [0u8; 32];
    let mut i: usize = 0;
    while i < 32
        invariant
            i <= 32,
            bytes@.len() == META_RECORD_BYTES,
            forall|j: int| 0 <= j < i ==> sha@[j] == bytes@[16 + j],
        decreases 32 - i,
    {
        sha[i] = bytes[16 + i];
        i = i + 1;
    }
    assert(sha@ =~= bytes@.subrange(16, 48));
    Some(WasmAssetMetadata { modified, total_length, sha256: sha })
}

/// Encodes a chunk record for storage.
pub fn encode_chunk(r: &WasmAssetChunk) -> (out: Vec<u8>)
    ensures
        out@ == spec_encode_chunk(r@),
{
    let mut out = r.content.clone();
    assert(out@ =~= r.content@);
    let mut lb = u64_to_le_bytes(r.length as u64);
    out.append(&mut lb);
    out
}

/// Decodes a stored chunk record.
pub fn decode_chunk(bytes: &Vec<u8>) -> (r: Option<WasmAssetChunk>)
    ensures
        spec_decode_chunk(bytes@) matches Some(rv) ==> (r matches Some(c) && c@ == rv),
        spec_decode_chunk(bytes@) is None ==> r is None,
{
    if bytes.len() != CHUNK_RECORD_BYTES {
        return None;
    }
    let lb = copy_range(bytes, CHUNK_SIZE, CHUNK_SIZE + 8);
    let length = u64_from_le_bytes(lb.as_slice());
    if length > CHUNK_SIZE as u64 {
        return None;
    }
    let content = copy_range(bytes, 0, CHUNK_SIZE);
    Some(WasmAssetChunk { content, length: length as usize })
}

/// Builds the storage key of the chunk record at `index` of the object `id`.
pub fn encode_chunk_key(id: &String, index: u32) -> (out: Vec<u8>)
    ensures
        out@ == spec_chunk_key(id@, index),
{
    let mut out = id.as_str().as_bytes_vec();
    let mut ib = u32_to_le_bytes(index);
    out.append(&mut ib);
    out
}

/// Pads chunk content with zero bytes up to the fixed record capacity.
pub fn pad_content(c: &Vec<u8>) -> (out: Vec<u8>)
    requires
        c@.len() <= CHUNK_SIZE,
    ensures
        out@.len() == CHUNK_SIZE,
        out@.take(c@.len() as int) == c@,
        forall|j: int| c@.len() <= j < CHUNK_SIZE ==> out@[j] == 0u8,
{
    let mut out = c.clone();
    assert(out@ =~= c@);
    while out.len() < CHUNK_SIZE
        invariant
            c@.len() <= out@.len() <= CHUNK_SIZE,
            out@.take(c@.len() as int) == c@,
            forall|j: int| c@.len() <= j < out@.len() ==> out@[j] == 0u8,
        decreases CHUNK_SIZE - out@.len(),
    {
        out.push(0u8);
        assert(out@.take(c@.len() as int) =~= c@);
    }
    out
}

} // verus!
