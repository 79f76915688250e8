//! Mathematical model of the whole store.
//!
//! `StateView` is the ghost image of a `Registry`: the volatile staging area
//! (batches and chunks with their id counters), the durable tables (decoded
//! metadata and chunk records), and the authorized-principal list.  Every
//! public operation of the registry is specified as a pure transition
//! function on `StateView`; the executable code's contracts say that it
//! implements exactly these transitions.

use vstd::prelude::*;

use crate::codec::spec_decode_chunk;
use crate::codec::spec_decode_metadata;
use crate::codec::spec_chunk_key;
use crate::digest::sha256_of;
use crate::types::{MetaView, RecView, RegistryError, BATCH_EXPIRY_NANOS, CHUNK_SIZE, MAX_WASM_SIZE};

verus! {

/// Ghost image of one staged batch.
#[verifier::ext_equal]
pub struct BatchV {
    pub id: u64,
    /// Ids of the staged chunks, in upload order; position is chunk index.
    pub chunk_ids: Seq<u64>,
    pub expires_at: u64,
}

/// Ghost image of one staged chunk.
#[verifier::ext_equal]
pub struct ChunkV {
    pub id: u64,
    pub batch_id: u64,
    pub content: Seq<u8>,
}

/// Ghost image of the whole store.
#[verifier::ext_equal]
pub struct StateView {
    pub batches: Seq<BatchV>,
    pub chunks: Seq<ChunkV>,
    pub next_batch_id: u64,
    pub next_chunk_id: u64,
    /// Declared object metadata, by object id.
    pub metadata: Map<Seq<char>, MetaView>,
    /// Durable chunk records, by (object id, chunk index).
    pub objects: Map<(Seq<char>, u32), RecView>,
    /// Principals allowed to mutate the store, in insertion order.
    pub authorized: Seq<Seq<u8>>,
}

/// The first staged batch with the given id, if any.
pub open spec fn find_batch(batches: Seq<BatchV>, id: u64) -> Option<BatchV>
    decreases batches.len(),
{
    if batches.len() == 0 {
        None
    } else if batches[0].id == id {
        Some(batches[0])
    } else {
        find_batch(batches.drop_first(), id)
    }
}

/// The first staged chunk with the given id, if any.
pub open spec fn find_chunk(chunks: Seq<ChunkV>, id: u64) -> Option<ChunkV>
    decreases chunks.len(),
{
    if chunks.len() == 0 {
        None
    } else if chunks[0].id == id {
        Some(chunks[0])
    } else {
        find_chunk(chunks.drop_first(), id)
    }
}

/// The contents of the staged chunks of a batch, in upload order; a missing
/// chunk is represented by an empty placeholder (well-formed states have
/// none).
pub open spec fn payloads(chunks: Seq<ChunkV>, ids: Seq<u64>) -> Seq<Seq<u8>> {
    Seq::new(
        ids.len(),
        |j: int|
            match find_chunk(chunks, ids[j]) {
                Some(c) => c.content,
                None => Seq::empty(),
            },
    )
}

/// Whether every chunk id of a batch resolves to a staged chunk.
pub open spec fn chunks_present(chunks: Seq<ChunkV>, ids: Seq<u64>) -> bool {
    forall|j: int| 0 <= j < ids.len() ==> find_chunk(chunks, ids[j]) is Some
}

/// Whether the chunks have the shape of a stored object: every chunk
/// except the final one fills a full `CHUNK_SIZE` (only the final chunk may
/// be short), and the final chunk of a non-empty batch is not empty.
pub open spec fn structural_ok(ps: Seq<Seq<u8>>) -> bool {
    &&& forall|j: int| 0 <= j < ps.len() - 1 ==> #[trigger] ps[j].len() == CHUNK_SIZE
    &&& ps.len() > 0 ==> ps.last().len() > 0
}

/// All payload bytes of a batch, concatenated in upload order.
pub open spec fn concat_payloads(ps: Seq<Seq<u8>>) -> Seq<u8>
    decreases ps.len(),
{
    if ps.len() == 0 {
        Seq::empty()
    } else {
        concat_payloads(ps.drop_last()) + ps.last()
    }
}

/// A chunk's content padded with zero bytes to the fixed record capacity.
pub open spec fn spec_padded(c: Seq<u8>) -> Seq<u8> {
    c + Seq::new((CHUNK_SIZE - c.len()) as nat, |i: int| 0u8)
}

/// Expiry timestamp granted to a batch touched at `now`.
pub open spec fn new_expiry(now: u64) -> u64 {
    (now + BATCH_EXPIRY_NANOS) as u64
}

/// Decoded image of the raw metadata table.
pub open spec fn decoded_metadata(raw: Map<Seq<char>, Seq<u8>>) -> Map<Seq<char>, MetaView> {
    Map::new(
        |k: Seq<char>| raw.dom().contains(k),
        |k: Seq<char>| spec_decode_metadata(raw[k]).unwrap(),
    )
}

/// Decoded image of the raw chunk table, keyed by (object id, chunk index).
pub open spec fn decoded_objects(raw: Map<Seq<u8>, Seq<u8>>) -> Map<(Seq<char>, u32), RecView> {
    Map::new(
        |k: (Seq<char>, u32)| raw.dom().contains(spec_chunk_key(k.0, k.1)),
        |k: (Seq<char>, u32)| spec_decode_chunk(raw[spec_chunk_key(k.0, k.1)]).unwrap(),
    )
}

impl StateView {
    /// Every invariant of a reachable store state.
    pub open spec fn wf(self) -> bool {
        // Batch ids are unique and below the allocation counter.
        &&& forall|i: int, j: int|
            0 <= i < j < self.batches.len() ==> self.batches[i].id != self.batches[j].id
        &&& forall|i: int|
            0 <= i < self.batches.len() ==> (#[trigger] self.batches[i]).id < self.next_batch_id
        // Chunk ids are unique and below the allocation counter.
        &&& forall|i: int, j: int|
            0 <= i < j < self.chunks.len() ==> self.chunks[i].id != self.chunks[j].id
        &&& forall|i: int|
            0 <= i < self.chunks.len() ==> (#[trigger] self.chunks[i]).id < self.next_chunk_id
        // No batch exceeds the object size bound.
        &&& forall|i: int|
            0 <= i < self.batches.len() ==> (#[trigger] self.batches[i]).chunk_ids.len()
                * CHUNK_SIZE <= MAX_WASM_SIZE
        // Every chunk id listed by a batch resolves to a staged chunk owned
        // by that batch.
        &&& forall|i: int, j: int|
            #![trigger self.batches[i].chunk_ids[j]]
            0 <= i < self.batches.len() && 0 <= j < self.batches[i].chunk_ids.len() ==> {
                let found = find_chunk(self.chunks, self.batches[i].chunk_ids[j]);
                &&& found is Some
                &&& found->Some_0.batch_id == self.batches[i].id
            }
        // Every staged chunk is owned by a staged batch that lists it.
        &&& forall|i: int|
            0 <= i < self.chunks.len() ==> {
                let owner = find_batch(self.batches, (#[trigger] self.chunks[i]).batch_id);
                &&& owner is Some
                &&& owner->Some_0.chunk_ids.contains(self.chunks[i].id)
            }
        // Staged chunk contents respect the chunk size bound.
        &&& forall|i: int|
            0 <= i < self.chunks.len() ==> (#[trigger] self.chunks[i]).content.len() <= CHUNK_SIZE
        // Durable records are well formed and their indices in bounds.
        &&& forall|k: (Seq<char>, u32)|
            self.objects.dom().contains(k) ==> (#[trigger] self.objects[k]).wf()
        &&& forall|k: (Seq<char>, u32)|
            #[trigger] self.objects.dom().contains(k) ==> (k.1 + 1) * CHUNK_SIZE <= MAX_WASM_SIZE
        // Durable indices of one object are contiguous from zero.
        &&& forall|k: (Seq<char>, u32)|
            #[trigger] self.objects.dom().contains(k) && k.1 > 0 ==> self.objects.dom().contains(
                (k.0, (k.1 - 1) as u32),
            )
        // Durable payloads are never empty, and every record with a
        // successor is full: an object is a run of full records closed by
        // one partial record.
        &&& forall|k: (Seq<char>, u32)|
            #[trigger] self.objects.dom().contains(k) ==> self.objects[k].length > 0
        &&& forall|k: (Seq<char>, u32)|
            #[trigger] self.objects.dom().contains(k) && self.objects.dom().contains(
                (k.0, (k.1 + 1) as u32),
            ) ==> self.objects[k].length == CHUNK_SIZE
        // Declared digests are SHA-256 sized.
        &&& forall|k: Seq<char>|
            self.metadata.dom().contains(k) ==> (#[trigger] self.metadata[k]).sha256.len() == 32
        // Stored principals fit the fixed principal capacity.
        &&& forall|i: int|
            0 <= i < self.authorized.len() ==> (#[trigger] self.authorized[i]).len() <= 29
        // Membership is a set: no principal appears twice.
        &&& forall|i: int, j: int|
            0 <= i < j < self.authorized.len() ==> self.authorized[i] != self.authorized[j]
    }
}

/// Whether the caller may mutate the store.
pub open spec fn spec_is_authorized(s: StateView, caller: Seq<u8>) -> bool {
    s.authorized.contains(caller)
}

/// Bootstrap seeding at process start: the installing principal becomes the
/// first member unless already present.
pub open spec fn spec_init(s: StateView, installer: Seq<u8>) -> StateView {
    if s.authorized.contains(installer) {
        s
    } else {
        StateView { authorized: s.authorized.push(installer), ..s }
    }
}

/// Membership grant: effective only when the requester is already a member
/// and the target is not; otherwise a silent no-op.
pub open spec fn spec_authorize(s: StateView, requester: Seq<u8>, target: Seq<u8>) -> StateView {
    if s.authorized.contains(requester) && !s.authorized.contains(target) {
        StateView { authorized: s.authorized.push(target), ..s }
    } else {
        s
    }
}

/// Declaring an object's metadata overwrites any previous declaration.
pub open spec fn spec_declare(
    s: StateView,
    id: Seq<char>,
    total_length: u64,
    sha256: Seq<u8>,
    now: u64,
) -> StateView {
    StateView {
        metadata: s.metadata.insert(
            id,
            MetaView { modified: now, total_length, sha256 },
        ),
        ..s
    }
}

/// Durable read of one chunk record.
pub open spec fn spec_get_chunk(s: StateView, id: Seq<char>, index: u32) -> Result<
    RecView,
    RegistryError,
> {
    if s.objects.dom().contains((id, index)) {
        Ok(s.objects[(id, index)])
    } else {
        Err(RegistryError::ChunkNotFound)
    }
}

/// The staged batches that survive a garbage-collection sweep at `now`:
/// exactly those whose expiry lies in the future, in order.
pub open spec fn gc_batches(batches: Seq<BatchV>, now: u64) -> Seq<BatchV>
    decreases batches.len(),
{
    if batches.len() == 0 {
        Seq::empty()
    } else if batches[0].expires_at > now {
        seq![batches[0]] + gc_batches(batches.drop_first(), now)
    } else {
        gc_batches(batches.drop_first(), now)
    }
}

/// Whether a staged chunk survives the sweep: its owning batch must itself
/// survive.
pub open spec fn chunk_alive(batches: Seq<BatchV>, c: ChunkV, now: u64) -> bool {
    match find_batch(batches, c.batch_id) {
        Some(b) => b.expires_at > now,
        None => false,
    }
}

/// The staged chunks that survive the sweep, in order.
pub open spec fn gc_chunks(chunks: Seq<ChunkV>, batches: Seq<BatchV>, now: u64) -> Seq<ChunkV>
    decreases chunks.len(),
{
    if chunks.len() == 0 {
        Seq::empty()
    } else if chunk_alive(batches, chunks[0], now) {
        seq![chunks[0]] + gc_chunks(chunks.drop_first(), batches, now)
    } else {
        gc_chunks(chunks.drop_first(), batches, now)
    }
}

/// Opening a batch first sweeps out every batch whose expiry has passed
/// (together with its staged chunks), then issues a fresh batch id.
pub open spec fn spec_create_batch(s: StateView, now: u64) -> (StateView, u64) {
    let survivors = gc_batches(s.batches, now);
    let live_chunks = gc_chunks(s.chunks, s.batches, now);
    let fresh = BatchV {
        id: s.next_batch_id,
        chunk_ids: Seq::empty(),
        expires_at: new_expiry(now),
    };
    (
        StateView {
            batches: survivors.push(fresh),
            chunks: live_chunks,
            next_batch_id: (s.next_batch_id + 1) as u64,
            ..s
        },
        s.next_batch_id,
    )
}

/// Admitting a chunk into a live batch refreshes the batch's expiry, appends
/// a fresh chunk id, and stages the content; oversized content, an unknown
/// or expired batch, and exceeding the object size bound are rejected
/// without any state change.
pub open spec fn spec_create_chunk(
    s: StateView,
    batch_id: u64,
    content: Seq<u8>,
    now: u64,
) -> (StateView, Result<u64, RegistryError>) {
    if content.len() > CHUNK_SIZE {
        (s, Err(RegistryError::ContentTooLarge))
    } else {
        match find_batch(s.batches, batch_id) {
            None => (s, Err(RegistryError::BatchNotFound)),
            Some(b) => {
                if b.expires_at <= now {
                    (s, Err(RegistryError::BatchNotFound))
                } else if (b.chunk_ids.len() + 1) * CHUNK_SIZE > MAX_WASM_SIZE {
                    (s, Err(RegistryError::ObjectTooLarge))
                } else {
                    let cid = s.next_chunk_id;
                    let updated = BatchV {
                        id: b.id,
                        chunk_ids: b.chunk_ids.push(cid),
                        expires_at: new_expiry(now),
                    };
                    (
                        StateView {
                            batches: s.batches.map_values(
                                |x: BatchV| if x.id == batch_id { updated } else { x },
                            ),
                            chunks: s.chunks.push(
                                ChunkV { id: cid, batch_id, content },
                            ),
                            next_chunk_id: (s.next_chunk_id + 1) as u64,
                            ..s
                        },
                        Ok(cid),
                    )
                }
            },
        }
    }
}

/// The staged batches with every batch of the given id removed.
pub open spec fn drop_batch(batches: Seq<BatchV>, id: u64) -> Seq<BatchV>
    decreases batches.len(),
{
    if batches.len() == 0 {
        Seq::empty()
    } else if batches[0].id == id {
        drop_batch(batches.drop_first(), id)
    } else {
        seq![batches[0]] + drop_batch(batches.drop_first(), id)
    }
}

/// The staged chunks with every chunk owned by the given batch removed.
pub open spec fn drop_chunks_of(chunks: Seq<ChunkV>, batch_id: u64) -> Seq<ChunkV>
    decreases chunks.len(),
{
    if chunks.len() == 0 {
        Seq::empty()
    } else if chunks[0].batch_id == batch_id {
        drop_chunks_of(chunks.drop_first(), batch_id)
    } else {
        seq![chunks[0]] + drop_chunks_of(chunks.drop_first(), batch_id)
    }
}

/// The staging area with one batch and all chunks it owns removed.
pub open spec fn discard_batch(s: StateView, batch_id: u64) -> StateView {
    StateView {
        batches: drop_batch(s.batches, batch_id),
        chunks: drop_chunks_of(s.chunks, batch_id),
        ..s
    }
}

/// The durable chunk table after a successful commit of `ps` for object
/// `id`: indices `0..ps.len()` hold the padded payloads, every higher index
/// of that object is gone, and every other object is untouched.
pub open spec fn commit_objects(
    objects: Map<(Seq<char>, u32), RecView>,
    id: Seq<char>,
    ps: Seq<Seq<u8>>,
) -> Map<(Seq<char>, u32), RecView> {
    Map::new(
        |k: (Seq<char>, u32)|
            if k.0 == id {
                0 <= k.1 < ps.len()
            } else {
                objects.dom().contains(k)
            },
        |k: (Seq<char>, u32)|
            if k.0 == id {
                RecView { content: spec_padded(ps[k.1 as int]), length: ps[k.1 as int].len() as usize }
            } else {
                objects[k]
            },
    )
}

/// The durable chunk table while a commit of `ps` for object `id` is being
/// written: indices below `upto` already hold the new records, everything
/// else is still as before.
pub open spec fn partial_commit_objects(
    objects: Map<(Seq<char>, u32), RecView>,
    id: Seq<char>,
    ps: Seq<Seq<u8>>,
    upto: int,
) -> Map<(Seq<char>, u32), RecView> {
    Map::new(
        |k: (Seq<char>, u32)|
            if k.0 == id && k.1 < upto {
                true
            } else {
                objects.dom().contains(k)
            },
        |k: (Seq<char>, u32)|
            if k.0 == id && k.1 < upto {
                RecView { content: spec_padded(ps[k.1 as int]), length: ps[k.1 as int].len() as usize }
            } else {
                objects[k]
            },
    )
}

/// The durable chunk table while the stale tail of object `id` is being
/// probed away: all `ps.len()` new records are in place, stale records at
/// indices `ps.len()..upto` are gone, higher ones not yet visited.
pub open spec fn probe_objects(
    objects: Map<(Seq<char>, u32), RecView>,
    id: Seq<char>,
    ps: Seq<Seq<u8>>,
    upto: int,
) -> Map<(Seq<char>, u32), RecView> {
    Map::new(
        |k: (Seq<char>, u32)|
            if k.0 == id {
                k.1 < ps.len() || (k.1 >= upto && objects.dom().contains(k))
            } else {
                objects.dom().contains(k)
            },
        |k: (Seq<char>, u32)|
            if k.0 == id && k.1 < ps.len() {
                RecView { content: spec_padded(ps[k.1 as int]), length: ps[k.1 as int].len() as usize }
            } else {
                objects[k]
            },
    )
}

/// Once the probe finds an absent index, contiguity guarantees the whole
/// stale tail is gone: the probed table is exactly the committed table.
pub proof fn lemma_probe_complete(
    objects: Map<(Seq<char>, u32), RecView>,
    id: Seq<char>,
    ps: Seq<Seq<u8>>,
    t: u32,
)
    requires
        forall|k: (Seq<char>, u32)|
            #[trigger] objects.dom().contains(k) && k.1 > 0 ==> objects.dom().contains(
                (k.0, (k.1 - 1) as u32),
            ),
        ps.len() <= t,
        !objects.dom().contains((id, t)),
    ensures
        probe_objects(objects, id, ps, t as int) == commit_objects(objects, id, ps),
{
    let lhs = probe_objects(objects, id, ps, t as int);
    let rhs = commit_objects(objects, id, ps);
    assert forall|k: (Seq<char>, u32)| #[trigger]
        lhs.dom().contains(k) == rhs.dom().contains(k) && (rhs.dom().contains(k) ==> lhs[k]
            == rhs[k]) by {
        if k.0 == id && k.1 >= t && objects.dom().contains(k) {
            lemma_contiguous_down(objects, id, k.1, t);
        }
    }
    assert(lhs =~= rhs);
}

/// Discarding a batch (with its chunks) preserves every staging invariant.
pub proof fn lemma_discard_wf(s: StateView, batch_id: u64)
    requires
        s.wf(),
    ensures
        discard_batch(s, batch_id).wf(),
{
    let s2 = discard_batch(s, batch_id);
    let db = drop_batch(s.batches, batch_id);
    let dc = drop_chunks_of(s.chunks, batch_id);
    lemma_drop_batch_unique(s.batches, batch_id);
    lemma_drop_batch_sub(s.batches, batch_id);
    lemma_drop_chunks_of_unique(s.chunks, batch_id);
    lemma_drop_chunks_of_sub(s.chunks, batch_id);

    assert forall|i: int| 0 <= i < db.len() implies (#[trigger] db[i]).id < s.next_batch_id
        && db[i].chunk_ids.len() * CHUNK_SIZE <= MAX_WASM_SIZE by {
        assert(s.batches.contains(db[i]));
        let w = choose|w: int| 0 <= w < s.batches.len() && s.batches[w] == db[i];
        assert(s.batches[w].id < s.next_batch_id);
        assert(s.batches[w].chunk_ids.len() * CHUNK_SIZE <= MAX_WASM_SIZE);
    }
    assert forall|i: int| 0 <= i < dc.len() implies (#[trigger] dc[i]).id < s.next_chunk_id
        && dc[i].content.len() <= CHUNK_SIZE by {
        assert(s.chunks.contains(dc[i]));
        let w = choose|w: int| 0 <= w < s.chunks.len() && s.chunks[w] == dc[i];
        assert(s.chunks[w].id < s.next_chunk_id);
    }

    // Remaining batches keep their id and still own their chunks.
    assert forall|i: int, j: int|
        #![trigger s2.batches[i].chunk_ids[j]]
        0 <= i < s2.batches.len() && 0 <= j < s2.batches[i].chunk_ids.len() implies {
        let found = find_chunk(s2.chunks, s2.batches[i].chunk_ids[j]);
        &&& found is Some
        &&& found->Some_0.batch_id == s2.batches[i].id
    } by {
        let b = db[i];
        assert(s.batches.contains(b));
        let w = choose|w: int| 0 <= w < s.batches.len() && s.batches[w] == b;
        // A kept batch does not carry the discarded id.
        lemma_find_batch_characterize(db, b.id);
        assert(find_batch(db, b.id) == Some(b));
        lemma_find_batch_drop(s.batches, batch_id, b.id);
        assert(b.id != batch_id);
        let cid = b.chunk_ids[j];
        assert(s.batches[w].chunk_ids[j] == cid);
        let found0 = find_chunk(s.chunks, cid);
        assert(found0 is Some && found0->Some_0.batch_id == b.id);
        lemma_find_chunk_drop(s.chunks, batch_id, cid);
    }

    // Remaining chunks keep their owner, which still lists them.
    assert forall|i: int| 0 <= i < s2.chunks.len() implies {
        let owner = find_batch(s2.batches, (#[trigger] s2.chunks[i]).batch_id);
        &&& owner is Some
        &&& owner->Some_0.chunk_ids.contains(s2.chunks[i].id)
    } by {
        let c = dc[i];
        assert(s.chunks.contains(c));
        let w = choose|w: int| 0 <= w < s.chunks.len() && s.chunks[w] == c;
        lemma_find_chunk_characterize(dc, c.id);
        assert(find_chunk(dc, c.id) == Some(c));
        lemma_find_chunk_drop(s.chunks, batch_id, c.id);
        lemma_find_chunk_characterize(s.chunks, c.id);
        assert(find_chunk(s.chunks, c.id) == Some(c));
        assert(c.batch_id != batch_id);
        lemma_find_batch_drop(s.batches, batch_id, c.batch_id);
    }
}

/// Committing a batch against an object id: validates the batch's shape and
/// the declared metadata, then either migrates all chunks into durable
/// storage (success) or reports why not.  Batch and staged chunks are
/// discarded on success and on the two validation failures; an unknown or
/// expired batch or missing metadata leaves the store unchanged.
pub open spec fn spec_commit(s: StateView, id: Seq<char>, batch_id: u64, now: u64) -> (
    StateView,
    Result<(), RegistryError>,
) {
    match find_batch(s.batches, batch_id) {
        None => (s, Err(RegistryError::BatchNotFound)),
        Some(b) => {
            if b.expires_at <= now {
                (s, Err(RegistryError::BatchNotFound))
            } else if !s.metadata.dom().contains(id) {
                (s, Err(RegistryError::MetadataNotFound))
            } else {
                let ps = payloads(s.chunks, b.chunk_ids);
                if !(chunks_present(s.chunks, b.chunk_ids) && structural_ok(ps)) {
                    (discard_batch(s, batch_id), Err(RegistryError::BadChunks))
                } else {
                    let m = s.metadata[id];
                    let data = concat_payloads(ps);
                    if data.len() != m.total_length || sha256_of(data) != m.sha256 {
                        (discard_batch(s, batch_id), Err(RegistryError::IntegrityMismatch))
                    } else {
                        (
                            StateView {
                                objects: commit_objects(s.objects, id, ps),
                                ..discard_batch(s, batch_id)
                            },
                            Ok(()),
                        )
                    }
                }
            }
        },
    }
}

/// Ghost image of one operation of a batched commit call.
pub enum OpV {
    CreateAsset { wasm_id: Seq<char>, total_length: u64, sha256: Seq<u8> },
    SetAssetContent { wasm_id: Seq<char>, batch_id: u64 },
    UnsetAssetContent { key: Seq<char>, content_encoding: Seq<char> },
    DeleteAsset { key: Seq<char> },
    Clear,
}

impl View for crate::types::BatchOperation {
    type V = OpV;

    open spec fn view(&self) -> OpV {
        match self {
            crate::types::BatchOperation::CreateAsset(a) => OpV::CreateAsset {
                wasm_id: a.wasm_id@,
                total_length: a.total_length,
                sha256: a.sha256@,
            },
            crate::types::BatchOperation::SetAssetContent(a) => OpV::SetAssetContent {
                wasm_id: a.wasm_id@,
                batch_id: a.batch_id,
            },
            crate::types::BatchOperation::UnsetAssetContent(a) => OpV::UnsetAssetContent {
                key: a.key@,
                content_encoding: a.content_encoding@,
            },
            crate::types::BatchOperation::DeleteAsset(a) => OpV::DeleteAsset { key: a.key@ },
            crate::types::BatchOperation::Clear(_) => OpV::Clear,
        }
    }
}

/// One operation of a batched commit call: declaring metadata and
/// committing content are active; the remaining operations are accepted and
/// skipped.
pub open spec fn spec_apply_op(s: StateView, op: OpV, now: u64) -> (StateView, Result<
    (),
    RegistryError,
>) {
    match op {
        OpV::CreateAsset { wasm_id, total_length, sha256 } => (
            spec_declare(s, wasm_id, total_length, sha256, now),
            Ok(()),
        ),
        OpV::SetAssetContent { wasm_id, batch_id } => spec_commit(s, wasm_id, batch_id, now),
        _ => (s, Ok(())),
    }
}

/// Runs the operations in order, stopping at the first failure.
pub open spec fn spec_run_ops(s: StateView, ops: Seq<OpV>, now: u64) -> (StateView, Result<
    (),
    RegistryError,
>)
    decreases ops.len(),
{
    if ops.len() == 0 {
        (s, Ok(()))
    } else {
        let step = spec_apply_op(s, ops[0], now);
        if step.1 is Err {
            step
        } else {
            spec_run_ops(step.0, ops.drop_first(), now)
        }
    }
}

/// A batched commit call: runs the operations, then (on success) destroys
/// the named batch together with its staged chunks.
pub open spec fn spec_commit_batch(s: StateView, batch_id: u64, ops: Seq<OpV>, now: u64) -> (
    StateView,
    Result<(), RegistryError>,
) {
    let run = spec_run_ops(s, ops, now);
    if run.1 is Err {
        run
    } else {
        (discard_batch(run.0, batch_id), Ok(()))
    }
}

/// Whether batch ids are pairwise distinct.
pub open spec fn batch_ids_unique(batches: Seq<BatchV>) -> bool {
    forall|i: int, j: int| 0 <= i < j < batches.len() ==> batches[i].id != batches[j].id
}

/// Whether chunk ids are pairwise distinct.
pub open spec fn chunk_ids_unique(chunks: Seq<ChunkV>) -> bool {
    forall|i: int, j: int| 0 <= i < j < chunks.len() ==> chunks[i].id != chunks[j].id
}

/// `find_batch` returns the first entry carrying the id.
pub proof fn lemma_find_batch_first(batches: Seq<BatchV>, id: u64, i: int)
    requires
        0 <= i < batches.len(),
        batches[i].id == id,
        forall|j: int| 0 <= j < i ==> batches[j].id != id,
    ensures
        find_batch(batches, id) == Some(batches[i]),
    decreases i,
{
    if i > 0 {
        let rest = batches.drop_first();
        assert(forall|j: int| 0 <= j < i - 1 ==> rest[j] == batches[j + 1]);
        lemma_find_batch_first(rest, id, i - 1);
    }
}

/// `find_batch` returns nothing when no entry carries the id.
pub proof fn lemma_find_batch_absent(batches: Seq<BatchV>, id: u64)
    requires
        forall|j: int| 0 <= j < batches.len() ==> batches[j].id != id,
    ensures
        find_batch(batches, id) is None,
    decreases batches.len(),
{
    if batches.len() > 0 {
        let rest = batches.drop_first();
        assert(forall|j: int| 0 <= j < rest.len() ==> rest[j] == batches[j + 1]);
        lemma_find_batch_absent(rest, id);
    }
}

/// `find_chunk` returns the first entry carrying the id.
pub proof fn lemma_find_chunk_first(chunks: Seq<ChunkV>, id: u64, i: int)
    requires
        0 <= i < chunks.len(),
        chunks[i].id == id,
        forall|j: int| 0 <= j < i ==> chunks[j].id != id,
    ensures
        find_chunk(chunks, id) == Some(chunks[i]),
    decreases i,
{
    if i > 0 {
        let rest = chunks.drop_first();
        assert(forall|j: int| 0 <= j < i - 1 ==> rest[j] == chunks[j + 1]);
        lemma_find_chunk_first(rest, id, i - 1);
    }
}

/// `find_chunk` returns nothing when no entry carries the id.
pub proof fn lemma_find_chunk_absent(chunks: Seq<ChunkV>, id: u64)
    requires
        forall|j: int| 0 <= j < chunks.len() ==> chunks[j].id != id,
    ensures
        find_chunk(chunks, id) is None,
    decreases chunks.len(),
{
    if chunks.len() > 0 {
        let rest = chunks.drop_first();
        assert(forall|j: int| 0 <= j < rest.len() ==> rest[j] == chunks[j + 1]);
        lemma_find_chunk_absent(rest, id);
    }
}

/// With unique ids, `find_batch` returns exactly the entry that carries the
/// id, and returns nothing exactly when no entry carries it.
pub proof fn lemma_find_batch_characterize(batches: Seq<BatchV>, id: u64)
    requires
        batch_ids_unique(batches),
    ensures
        find_batch(batches, id) is None <==> (forall|i: int|
            0 <= i < batches.len() ==> (#[trigger] batches[i]).id != id),
        forall|i: int|
            0 <= i < batches.len() && (#[trigger] batches[i]).id == id ==> find_batch(batches, id)
                == Some(batches[i]),
    decreases batches.len(),
{
    if batches.len() == 0 {
    } else if batches[0].id == id {
        assert forall|i: int|
            0 <= i < batches.len() && (#[trigger] batches[i]).id == id implies find_batch(
            batches,
            id,
        ) == Some(batches[i]) by {
            assert(i == 0);
        }
    } else {
        let rest = batches.drop_first();
        lemma_find_batch_characterize(rest, id);
        assert forall|i: int|
            0 <= i < batches.len() && (#[trigger] batches[i]).id == id implies find_batch(
            batches,
            id,
        ) == Some(batches[i]) by {
            assert(rest[i - 1] == batches[i]);
        }
        if find_batch(batches, id) is None {
            assert forall|i: int| 0 <= i < batches.len() implies (#[trigger] batches[i]).id
                != id by {
                if i > 0 {
                    assert(rest[i - 1] == batches[i]);
                }
            }
        }
    }
}

/// With unique ids, `find_chunk` returns exactly the entry that carries the
/// id, and returns nothing exactly when no entry carries it.
pub proof fn lemma_find_chunk_characterize(chunks: Seq<ChunkV>, id: u64)
    requires
        chunk_ids_unique(chunks),
    ensures
        find_chunk(chunks, id) is None <==> (forall|i: int|
            0 <= i < chunks.len() ==> (#[trigger] chunks[i]).id != id),
        forall|i: int|
            0 <= i < chunks.len() && (#[trigger] chunks[i]).id == id ==> find_chunk(chunks, id)
                == Some(chunks[i]),
    decreases chunks.len(),
{
    if chunks.len() == 0 {
    } else if chunks[0].id == id {
        assert forall|i: int|
            0 <= i < chunks.len() && (#[trigger] chunks[i]).id == id implies find_chunk(chunks, id)
            == Some(chunks[i]) by {
            assert(i == 0);
        }
    } else {
        let rest = chunks.drop_first();
        lemma_find_chunk_characterize(rest, id);
        assert forall|i: int|
            0 <= i < chunks.len() && (#[trigger] chunks[i]).id == id implies find_chunk(chunks, id)
            == Some(chunks[i]) by {
            assert(rest[i - 1] == chunks[i]);
        }
        if find_chunk(chunks, id) is None {
            assert forall|i: int| 0 <= i < chunks.len() implies (#[trigger] chunks[i]).id != id by {
                if i > 0 {
                    assert(rest[i - 1] == chunks[i]);
                }
            }
        }
    }
}

/// Appending an element commutes with the garbage-collection sweep.
pub proof fn lemma_gc_batches_push(batches: Seq<BatchV>, x: BatchV, now: u64)
    ensures
        gc_batches(batches.push(x), now) == if x.expires_at > now {
            gc_batches(batches, now).push(x)
        } else {
            gc_batches(batches, now)
        },
    decreases batches.len(),
{
    let s = batches.push(x);
    if batches.len() == 0 {
        assert(s[0] == x);
        assert(s.drop_first() =~= batches);
        if x.expires_at > now {
            assert(seq![x] + gc_batches(batches, now) =~= gc_batches(batches, now).push(x));
        }
    } else {
        assert(s[0] == batches[0]);
        assert(s.drop_first() =~= batches.drop_first().push(x));
        lemma_gc_batches_push(batches.drop_first(), x, now);
        if batches[0].expires_at > now {
            if x.expires_at > now {
                assert(seq![batches[0]] + gc_batches(batches.drop_first(), now).push(x) =~= (
                seq![batches[0]] + gc_batches(batches.drop_first(), now)).push(x));
            }
        }
    }
    if x.expires_at > now {
        assert(gc_batches(batches.push(x), now) =~= gc_batches(batches, now).push(x));
    } else {
        assert(gc_batches(batches.push(x), now) =~= gc_batches(batches, now));
    }
}

/// Appending an element commutes with the chunk sweep.
pub proof fn lemma_gc_chunks_push(chunks: Seq<ChunkV>, x: ChunkV, batches: Seq<BatchV>, now: u64)
    ensures
        gc_chunks(chunks.push(x), batches, now) == if chunk_alive(batches, x, now) {
            gc_chunks(chunks, batches, now).push(x)
        } else {
            gc_chunks(chunks, batches, now)
        },
    decreases chunks.len(),
{
    let s = chunks.push(x);
    if chunks.len() == 0 {
        assert(s[0] == x);
        assert(s.drop_first() =~= chunks);
        if chunk_alive(batches, x, now) {
            assert(seq![x] + gc_chunks(chunks, batches, now) =~= gc_chunks(chunks, batches, now).push(
            x));
        }
    } else {
        assert(s[0] == chunks[0]);
        assert(s.drop_first() =~= chunks.drop_first().push(x));
        lemma_gc_chunks_push(chunks.drop_first(), x, batches, now);
        if chunk_alive(batches, chunks[0], now) {
            if chunk_alive(batches, x, now) {
                assert(seq![chunks[0]] + gc_chunks(chunks.drop_first(), batches, now).push(x) =~= (
                seq![chunks[0]] + gc_chunks(chunks.drop_first(), batches, now)).push(x));
            }
        }
    }
    if chunk_alive(batches, x, now) {
        assert(gc_chunks(chunks.push(x), batches, now) =~= gc_chunks(chunks, batches, now).push(x));
    } else {
        assert(gc_chunks(chunks.push(x), batches, now) =~= gc_chunks(chunks, batches, now));
    }
}

/// Appending an element commutes with removing a batch id.
pub proof fn lemma_drop_batch_push(batches: Seq<BatchV>, x: BatchV, id: u64)
    ensures
        drop_batch(batches.push(x), id) == if x.id == id {
            drop_batch(batches, id)
        } else {
            drop_batch(batches, id).push(x)
        },
    decreases batches.len(),
{
    let s = batches.push(x);
    if batches.len() == 0 {
        assert(s[0] == x);
        assert(s.drop_first() =~= batches);
        if x.id != id {
            assert(seq![x] + drop_batch(batches, id) =~= drop_batch(batches, id).push(x));
        }
    } else {
        assert(s[0] == batches[0]);
        assert(s.drop_first() =~= batches.drop_first().push(x));
        lemma_drop_batch_push(batches.drop_first(), x, id);
        if batches[0].id != id {
            if x.id != id {
                assert(seq![batches[0]] + drop_batch(batches.drop_first(), id).push(x) =~= (
                seq![batches[0]] + drop_batch(batches.drop_first(), id)).push(x));
            }
        }
    }
    if x.id == id {
        assert(drop_batch(batches.push(x), id) =~= drop_batch(batches, id));
    } else {
        assert(drop_batch(batches.push(x), id) =~= drop_batch(batches, id).push(x));
    }
}

/// Appending an element commutes with removing a batch's chunks.
pub proof fn lemma_drop_chunks_of_push(chunks: Seq<ChunkV>, x: ChunkV, batch_id: u64)
    ensures
        drop_chunks_of(chunks.push(x), batch_id) == if x.batch_id == batch_id {
            drop_chunks_of(chunks, batch_id)
        } else {
            drop_chunks_of(chunks, batch_id).push(x)
        },
    decreases chunks.len(),
{
    let s = chunks.push(x);
    if chunks.len() == 0 {
        assert(s[0] == x);
        assert(s.drop_first() =~= chunks);
        if x.batch_id != batch_id {
            assert(seq![x] + drop_chunks_of(chunks, batch_id) =~= drop_chunks_of(chunks, batch_id).push(
            x));
        }
    } else {
        assert(s[0] == chunks[0]);
        assert(s.drop_first() =~= chunks.drop_first().push(x));
        lemma_drop_chunks_of_push(chunks.drop_first(), x, batch_id);
        if chunks[0].batch_id != batch_id {
            if x.batch_id != batch_id {
                assert(seq![chunks[0]] + drop_chunks_of(chunks.drop_first(), batch_id).push(x) =~= (
                seq![chunks[0]] + drop_chunks_of(chunks.drop_first(), batch_id)).push(x));
            }
        }
    }
    if x.batch_id == batch_id {
        assert(drop_chunks_of(chunks.push(x), batch_id) =~= drop_chunks_of(chunks, batch_id));
    } else {
        assert(drop_chunks_of(chunks.push(x), batch_id) =~= drop_chunks_of(chunks, batch_id).push(x));
    }
}

/// What the sweep leaves findable: exactly the still-live batches.
pub proof fn lemma_find_batch_gc(batches: Seq<BatchV>, now: u64, id: u64)
    requires
        batch_ids_unique(batches),
    ensures
        find_batch(gc_batches(batches, now), id) == match find_batch(batches, id) {
            Some(b) => if b.expires_at > now {
                Some(b)
            } else {
                None
            },
            None => None::<BatchV>,
        },
    decreases batches.len(),
{
    if batches.len() == 0 {
    } else {
        let rest = batches.drop_first();
        lemma_find_batch_gc(rest, now, id);
        if batches[0].expires_at > now {
            let g = gc_batches(batches, now);
            assert(g[0] == batches[0]);
            assert(g.drop_first() =~= gc_batches(rest, now));
            if batches[0].id == id {
            } else {
            }
        } else {
            if batches[0].id == id {
                // The head is swept; no other entry carries its id.
                lemma_find_batch_characterize(rest, id);
                assert(forall|i: int| 0 <= i < rest.len() ==> (#[trigger] rest[i]).id != id);
            }
        }
    }
}

/// What removing one batch leaves findable.
pub proof fn lemma_find_batch_drop(batches: Seq<BatchV>, id: u64, rid: u64)
    ensures
        find_batch(drop_batch(batches, id), rid) == if rid == id {
            None::<BatchV>
        } else {
            find_batch(batches, rid)
        },
    decreases batches.len(),
{
    if batches.len() == 0 {
    } else {
        let rest = batches.drop_first();
        lemma_find_batch_drop(rest, id, rid);
        if batches[0].id != id {
            let d = drop_batch(batches, id);
            assert(d[0] == batches[0]);
            assert(d.drop_first() =~= drop_batch(rest, id));
        }
    }
}

/// What removing a batch's chunks leaves findable.
pub proof fn lemma_find_chunk_drop(chunks: Seq<ChunkV>, batch_id: u64, cid: u64)
    requires
        chunk_ids_unique(chunks),
    ensures
        find_chunk(drop_chunks_of(chunks, batch_id), cid) == match find_chunk(chunks, cid) {
            Some(c) => if c.batch_id == batch_id {
                None
            } else {
                Some(c)
            },
            None => None::<ChunkV>,
        },
    decreases chunks.len(),
{
    if chunks.len() == 0 {
    } else {
        let rest = chunks.drop_first();
        lemma_find_chunk_drop(rest, batch_id, cid);
        if chunks[0].batch_id != batch_id {
            let d = drop_chunks_of(chunks, batch_id);
            assert(d[0] == chunks[0]);
            assert(d.drop_first() =~= drop_chunks_of(rest, batch_id));
        } else {
            if chunks[0].id == cid {
                lemma_find_chunk_characterize(rest, cid);
                assert(forall|i: int| 0 <= i < rest.len() ==> (#[trigger] rest[i]).id != cid);
            }
        }
    }
}

/// What the chunk sweep leaves findable: exactly the chunks of live batches.
pub proof fn lemma_find_chunk_gc(chunks: Seq<ChunkV>, batches: Seq<BatchV>, now: u64, cid: u64)
    requires
        chunk_ids_unique(chunks),
    ensures
        find_chunk(gc_chunks(chunks, batches, now), cid) == match find_chunk(chunks, cid) {
            Some(c) => if chunk_alive(batches, c, now) {
                Some(c)
            } else {
                None
            },
            None => None::<ChunkV>,
        },
    decreases chunks.len(),
{
    if chunks.len() == 0 {
    } else {
        let rest = chunks.drop_first();
        lemma_find_chunk_gc(rest, batches, now, cid);
        if chunk_alive(batches, chunks[0], now) {
            let g = gc_chunks(chunks, batches, now);
            assert(g[0] == chunks[0]);
            assert(g.drop_first() =~= gc_chunks(rest, batches, now));
        } else {
            if chunks[0].id == cid {
                lemma_find_chunk_characterize(rest, cid);
                assert(forall|i: int| 0 <= i < rest.len() ==> (#[trigger] rest[i]).id != cid);
            }
        }
    }
}

/// Everything appearing after a sweep already appeared before it.
pub proof fn lemma_gc_batches_sub(batches: Seq<BatchV>, now: u64)
    ensures
        forall|i: int|
            0 <= i < gc_batches(batches, now).len() ==> batches.contains(
                #[trigger] gc_batches(batches, now)[i],
            ),
    decreases batches.len(),
{
    if batches.len() == 0 {
    } else {
        let rest = batches.drop_first();
        lemma_gc_batches_sub(rest, now);
        assert forall|i: int| 0 <= i < gc_batches(batches, now).len() implies batches.contains(
            #[trigger] gc_batches(batches, now)[i],
        ) by {
            let g = gc_batches(batches, now);
            if batches[0].expires_at > now {
                if i == 0 {
                    assert(batches[0] == g[0]);
                } else {
                    assert(g[i] == gc_batches(rest, now)[i - 1]);
                    let x = gc_batches(rest, now)[i - 1];
                    assert(rest.contains(x));
                    let w = choose|w: int| 0 <= w < rest.len() && rest[w] == x;
                    assert(batches[w + 1] == x);
                }
            } else {
                let x = g[i];
                assert(rest.contains(x));
                let w = choose|w: int| 0 <= w < rest.len() && rest[w] == x;
                assert(batches[w + 1] == x);
            }
        }
    }
}

/// Everything appearing after the chunk sweep already appeared before it.
pub proof fn lemma_gc_chunks_sub(chunks: Seq<ChunkV>, batches: Seq<BatchV>, now: u64)
    ensures
        forall|i: int|
            0 <= i < gc_chunks(chunks, batches, now).len() ==> chunks.contains(
                #[trigger] gc_chunks(chunks, batches, now)[i],
            ),
    decreases chunks.len(),
{
    if chunks.len() == 0 {
    } else {
        let rest = chunks.drop_first();
        lemma_gc_chunks_sub(rest, batches, now);
        assert forall|i: int|
            0 <= i < gc_chunks(chunks, batches, now).len() implies chunks.contains(
            #[trigger] gc_chunks(chunks, batches, now)[i],
        ) by {
            let g = gc_chunks(chunks, batches, now);
            if chunk_alive(batches, chunks[0], now) && i == 0 {
                assert(chunks[0] == g[0]);
            } else {
                let x = g[i];
                let off: int = if chunk_alive(batches, chunks[0], now) {
                    1
                } else {
                    0
                };
                assert(x == gc_chunks(rest, batches, now)[i - off]);
                assert(rest.contains(x));
                let w = choose|w: int| 0 <= w < rest.len() && rest[w] == x;
                assert(chunks[w + 1] == x);
            }
        }
    }
}

/// Everything left after removing a batch already appeared before.
pub proof fn lemma_drop_batch_sub(batches: Seq<BatchV>, id: u64)
    ensures
        forall|i: int|
            0 <= i < drop_batch(batches, id).len() ==> batches.contains(
                #[trigger] drop_batch(batches, id)[i],
            ),
    decreases batches.len(),
{
    if batches.len() == 0 {
    } else {
        let rest = batches.drop_first();
        lemma_drop_batch_sub(rest, id);
        assert forall|i: int| 0 <= i < drop_batch(batches, id).len() implies batches.contains(
            #[trigger] drop_batch(batches, id)[i],
        ) by {
            let g = drop_batch(batches, id);
            if batches[0].id != id && i == 0 {
                assert(batches[0] == g[0]);
            } else {
                let off: int = if batches[0].id != id {
                    1
                } else {
                    0
                };
                let x = g[i];
                assert(x == drop_batch(rest, id)[i - off]);
                assert(rest.contains(x));
                let w = choose|w: int| 0 <= w < rest.len() && rest[w] == x;
                assert(batches[w + 1] == x);
            }
        }
    }
}

/// Everything left after removing a batch's chunks already appeared before.
pub proof fn lemma_drop_chunks_of_sub(chunks: Seq<ChunkV>, batch_id: u64)
    ensures
        forall|i: int|
            0 <= i < drop_chunks_of(chunks, batch_id).len() ==> chunks.contains(
                #[trigger] drop_chunks_of(chunks, batch_id)[i],
            ),
    decreases chunks.len(),
{
    if chunks.len() == 0 {
    } else {
        let rest = chunks.drop_first();
        lemma_drop_chunks_of_sub(rest, batch_id);
        assert forall|i: int|
            0 <= i < drop_chunks_of(chunks, batch_id).len() implies chunks.contains(
            #[trigger] drop_chunks_of(chunks, batch_id)[i],
        ) by {
            let g = drop_chunks_of(chunks, batch_id);
            if chunks[0].batch_id != batch_id && i == 0 {
                assert(chunks[0] == g[0]);
            } else {
                let off: int = if chunks[0].batch_id != batch_id {
                    1
                } else {
                    0
                };
                let x = g[i];
                assert(x == drop_chunks_of(rest, batch_id)[i - off]);
                assert(rest.contains(x));
                let w = choose|w: int| 0 <= w < rest.len() && rest[w] == x;
                assert(chunks[w + 1] == x);
            }
        }
    }
}

/// The batch sweep keeps ids unique.
pub proof fn lemma_gc_batches_unique(batches: Seq<BatchV>, now: u64)
    requires
        batch_ids_unique(batches),
    ensures
        batch_ids_unique(gc_batches(batches, now)),
    decreases batches.len(),
{
    if batches.len() > 0 {
        let rest = batches.drop_first();
        lemma_gc_batches_unique(rest, now);
        lemma_gc_batches_sub(rest, now);
        let g = gc_batches(batches, now);
        assert forall|i: int, j: int| 0 <= i < j < g.len() implies g[i].id != g[j].id by {
            if batches[0].expires_at > now {
                if i == 0 {
                    let x = gc_batches(rest, now)[j - 1];
                    assert(rest.contains(x));
                    let w = choose|w: int| 0 <= w < rest.len() && rest[w] == x;
                    assert(batches[w + 1] == x);
                } else {
                    assert(g[i] == gc_batches(rest, now)[i - 1]);
                    assert(g[j] == gc_batches(rest, now)[j - 1]);
                }
            }
        }
    }
}

/// The chunk sweep keeps ids unique.
pub proof fn lemma_gc_chunks_unique(chunks: Seq<ChunkV>, batches: Seq<BatchV>, now: u64)
    requires
        chunk_ids_unique(chunks),
    ensures
        chunk_ids_unique(gc_chunks(chunks, batches, now)),
    decreases chunks.len(),
{
    if chunks.len() > 0 {
        let rest = chunks.drop_first();
        lemma_gc_chunks_unique(rest, batches, now);
        lemma_gc_chunks_sub(rest, batches, now);
        let g = gc_chunks(chunks, batches, now);
        assert forall|i: int, j: int| 0 <= i < j < g.len() implies g[i].id != g[j].id by {
            if chunk_alive(batches, chunks[0], now) {
                if i == 0 {
                    let x = gc_chunks(rest, batches, now)[j - 1];
                    assert(rest.contains(x));
                    let w = choose|w: int| 0 <= w < rest.len() && rest[w] == x;
                    assert(chunks[w + 1] == x);
                } else {
                    assert(g[i] == gc_chunks(rest, batches, now)[i - 1]);
                    assert(g[j] == gc_chunks(rest, batches, now)[j - 1]);
                }
            }
        }
    }
}

/// Removing a batch keeps ids unique.
pub proof fn lemma_drop_batch_unique(batches: Seq<BatchV>, id: u64)
    requires
        batch_ids_unique(batches),
    ensures
        batch_ids_unique(drop_batch(batches, id)),
    decreases batches.len(),
{
    if batches.len() > 0 {
        let rest = batches.drop_first();
        lemma_drop_batch_unique(rest, id);
        lemma_drop_batch_sub(rest, id);
        let g = drop_batch(batches, id);
        assert forall|i: int, j: int| 0 <= i < j < g.len() implies g[i].id != g[j].id by {
            if batches[0].id != id {
                if i == 0 {
                    let x = drop_batch(rest, id)[j - 1];
                    assert(rest.contains(x));
                    let w = choose|w: int| 0 <= w < rest.len() && rest[w] == x;
                    assert(batches[w + 1] == x);
                } else {
                    assert(g[i] == drop_batch(rest, id)[i - 1]);
                    assert(g[j] == drop_batch(rest, id)[j - 1]);
                }
            }
        }
    }
}

/// Removing a batch's chunks keeps ids unique.
pub proof fn lemma_drop_chunks_of_unique(chunks: Seq<ChunkV>, batch_id: u64)
    requires
        chunk_ids_unique(chunks),
    ensures
        chunk_ids_unique(drop_chunks_of(chunks, batch_id)),
    decreases chunks.len(),
{
    if chunks.len() > 0 {
        let rest = chunks.drop_first();
        lemma_drop_chunks_of_unique(rest, batch_id);
        lemma_drop_chunks_of_sub(rest, batch_id);
        let g = drop_chunks_of(chunks, batch_id);
        assert forall|i: int, j: int| 0 <= i < j < g.len() implies g[i].id != g[j].id by {
            if chunks[0].batch_id != batch_id {
                if i == 0 {
                    let x = drop_chunks_of(rest, batch_id)[j - 1];
                    assert(rest.contains(x));
                    let w = choose|w: int| 0 <= w < rest.len() && rest[w] == x;
                    assert(chunks[w + 1] == x);
                } else {
                    assert(g[i] == drop_chunks_of(rest, batch_id)[i - 1]);
                    assert(g[j] == drop_chunks_of(rest, batch_id)[j - 1]);
                }
            }
        }
    }
}

/// Appending a batch does not disturb earlier finds.
pub proof fn lemma_find_batch_push(batches: Seq<BatchV>, x: BatchV, id: u64)
    ensures
        find_batch(batches.push(x), id) == if find_batch(batches, id) is Some {
            find_batch(batches, id)
        } else if x.id == id {
            Some(x)
        } else {
            None::<BatchV>
        },
    decreases batches.len(),
{
    let s = batches.push(x);
    if batches.len() == 0 {
        assert(s[0] == x);
        assert(s.drop_first() =~= batches);
    } else {
        assert(s[0] == batches[0]);
        assert(s.drop_first() =~= batches.drop_first().push(x));
        lemma_find_batch_push(batches.drop_first(), x, id);
    }
}

/// Appending a chunk does not disturb earlier finds.
pub proof fn lemma_find_chunk_push(chunks: Seq<ChunkV>, x: ChunkV, id: u64)
    ensures
        find_chunk(chunks.push(x), id) == if find_chunk(chunks, id) is Some {
            find_chunk(chunks, id)
        } else if x.id == id {
            Some(x)
        } else {
            None::<ChunkV>
        },
    decreases chunks.len(),
{
    let s = chunks.push(x);
    if chunks.len() == 0 {
        assert(s[0] == x);
        assert(s.drop_first() =~= chunks);
    } else {
        assert(s[0] == chunks[0]);
        assert(s.drop_first() =~= chunks.drop_first().push(x));
        lemma_find_chunk_push(chunks.drop_first(), x, id);
    }
}

/// With every chunk but the final one full, the concatenation's length is
/// determined by the chunk count and the final chunk's length.
pub proof fn lemma_concat_len(ps: Seq<Seq<u8>>)
    requires
        forall|j: int| 0 <= j < ps.len() - 1 ==> #[trigger] ps[j].len() == CHUNK_SIZE,
    ensures
        ps.len() == 0 ==> concat_payloads(ps).len() == 0,
        ps.len() > 0 ==> concat_payloads(ps).len() == (ps.len() - 1) * CHUNK_SIZE
            + ps.last().len(),
    decreases ps.len(),
{
    if ps.len() > 0 {
        let d = ps.drop_last();
        assert(forall|j: int| 0 <= j < d.len() ==> d[j] == ps[j]);
        lemma_concat_len(d);
        if d.len() > 0 {
            assert(d.last() == ps[ps.len() - 2]);
            assert(d.last().len() == CHUNK_SIZE);
        }
    }
}

/// In a well-formed state, any staged chunk that can be found respects the
/// chunk size bound.
pub proof fn lemma_found_chunk_bounded(s: StateView, cid: u64)
    requires
        s.wf(),
        find_chunk(s.chunks, cid) is Some,
    ensures
        find_chunk(s.chunks, cid)->Some_0.content.len() <= CHUNK_SIZE,
{
    lemma_find_chunk_characterize(s.chunks, cid);
    assert(!(forall|i: int| 0 <= i < s.chunks.len() ==> (#[trigger] s.chunks[i]).id != cid));
    let w = choose|w: int| 0 <= w < s.chunks.len() && (#[trigger] s.chunks[w]).id == cid;
    assert(find_chunk(s.chunks, cid) == Some(s.chunks[w]));
    assert(s.chunks[w].content.len() <= CHUNK_SIZE);
}

/// In a contiguous object, every index below a present index is present.
pub proof fn lemma_contiguous_down(
    objects: Map<(Seq<char>, u32), RecView>,
    id: Seq<char>,
    j: u32,
    t: u32,
)
    requires
        forall|k: (Seq<char>, u32)|
            #[trigger] objects.dom().contains(k) && k.1 > 0 ==> objects.dom().contains(
                (k.0, (k.1 - 1) as u32),
            ),
        objects.dom().contains((id, j)),
        t <= j,
    ensures
        objects.dom().contains((id, t)),
    decreases j - t,
{
    if t < j {
        assert(objects.dom().contains((id, (j - 1) as u32)));
        lemma_contiguous_down(objects, id, (j - 1) as u32, t);
    }
}

/// Inserting a well-formed encoded record updates the decoded metadata view
/// pointwise.
pub proof fn lemma_decoded_metadata_insert(raw: Map<Seq<char>, Seq<u8>>, k: Seq<char>, v: Seq<u8>)
    requires
        spec_decode_metadata(v) is Some,
    ensures
        decoded_metadata(raw.insert(k, v)) == decoded_metadata(raw).insert(
            k,
            spec_decode_metadata(v)->Some_0,
        ),
{
    assert(decoded_metadata(raw.insert(k, v)) =~= decoded_metadata(raw).insert(
        k,
        spec_decode_metadata(v)->Some_0,
    ));
}

/// Inserting a well-formed encoded chunk record updates the decoded object
/// view at exactly its own (id, index) pair.
pub proof fn lemma_decoded_objects_insert(
    raw: Map<Seq<u8>, Seq<u8>>,
    id: Seq<char>,
    i: u32,
    v: Seq<u8>,
)
    requires
        spec_decode_chunk(v) is Some,
    ensures
        decoded_objects(raw.insert(spec_chunk_key(id, i), v)) == decoded_objects(raw).insert(
            (id, i),
            spec_decode_chunk(v)->Some_0,
        ),
{
    let lhs = decoded_objects(raw.insert(spec_chunk_key(id, i), v));
    let rhs = decoded_objects(raw).insert((id, i), spec_decode_chunk(v)->Some_0);
    assert forall|k: (Seq<char>, u32)| #[trigger]
        lhs.dom().contains(k) == rhs.dom().contains(k) && (lhs.dom().contains(k) ==> lhs[k]
            == rhs[k]) by {
        if k != (id, i) {
            if spec_chunk_key(k.0, k.1) == spec_chunk_key(id, i) {
                crate::codec::lemma_chunk_key_injective(k.0, k.1, id, i);
            }
        }
    }
    assert(lhs =~= rhs);
}

/// Removing an encoded chunk record updates the decoded object view at
/// exactly its own (id, index) pair.
pub proof fn lemma_decoded_objects_remove(raw: Map<Seq<u8>, Seq<u8>>, id: Seq<char>, i: u32)
    ensures
        decoded_objects(raw.remove(spec_chunk_key(id, i))) == decoded_objects(raw).remove((id, i)),
{
    let lhs = decoded_objects(raw.remove(spec_chunk_key(id, i)));
    let rhs = decoded_objects(raw).remove((id, i));
    assert forall|k: (Seq<char>, u32)| #[trigger]
        lhs.dom().contains(k) == rhs.dom().contains(k) && (lhs.dom().contains(k) ==> lhs[k]
            == rhs[k]) by {
        if k != (id, i) {
            if spec_chunk_key(k.0, k.1) == spec_chunk_key(id, i) {
                crate::codec::lemma_chunk_key_injective(k.0, k.1, id, i);
            }
        }
    }
    assert(lhs =~= rhs);
}

} // verus!
