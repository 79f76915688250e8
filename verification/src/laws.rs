//! General laws of the upload/commit pipeline, stated over the transition
//! functions of `crate::model` and proved once and for all.

use vstd::prelude::*;

use crate::digest::sha256_of;
use crate::model::{
    chunks_present, concat_payloads, find_batch, find_chunk, lemma_find_batch_drop,
    lemma_find_batch_gc, lemma_find_batch_push, lemma_find_chunk_gc, lemma_found_chunk_bounded,
    payloads, spec_commit, spec_create_batch, spec_create_chunk, spec_get_chunk, spec_padded,
    structural_ok, StateView,
};
use crate::types::{RegistryError, CHUNK_SIZE, MAX_WASM_SIZE};

verus! {

/// A valid upload round-trips: when a live batch's staged chunks are all
/// present and well shaped, and their concatenation matches the declared
/// total length and SHA-256 digest exactly, the commit succeeds and a
/// durable read of any index `i` of the object returns exactly the bytes
/// admitted at position `i`.
pub proof fn lemma_commit_roundtrip(
    s: StateView,
    wasm_id: Seq<char>,
    batch_id: u64,
    now: u64,
    i: u32,
)
    requires
        s.wf(),
        find_batch(s.batches, batch_id) is Some,
        find_batch(s.batches, batch_id)->Some_0.expires_at > now,
        s.metadata.dom().contains(wasm_id),
        chunks_present(s.chunks, find_batch(s.batches, batch_id)->Some_0.chunk_ids),
        structural_ok(payloads(s.chunks, find_batch(s.batches, batch_id)->Some_0.chunk_ids)),
        concat_payloads(
            payloads(s.chunks, find_batch(s.batches, batch_id)->Some_0.chunk_ids),
        ).len() == s.metadata[wasm_id].total_length,
        sha256_of(
            concat_payloads(payloads(s.chunks, find_batch(s.batches, batch_id)->Some_0.chunk_ids)),
        ) == s.metadata[wasm_id].sha256,
        i < find_batch(s.batches, batch_id)->Some_0.chunk_ids.len(),
    ensures
        spec_commit(s, wasm_id, batch_id, now).1 == Ok::<(), RegistryError>(()),
        spec_get_chunk(spec_commit(s, wasm_id, batch_id, now).0, wasm_id, i) is Ok,
        spec_get_chunk(spec_commit(s, wasm_id, batch_id, now).0, wasm_id, i)->Ok_0.payload()
            == payloads(s.chunks, find_batch(s.batches, batch_id)->Some_0.chunk_ids)[i as int],
{
    let b = find_batch(s.batches, batch_id)->Some_0;
    let ps = payloads(s.chunks, b.chunk_ids);
    let s2 = spec_commit(s, wasm_id, batch_id, now).0;
    assert(s2.objects.dom().contains((wasm_id, i)));
    let rec = s2.objects[(wasm_id, i)];
    assert(rec.content == spec_padded(ps[i as int]));
    lemma_found_chunk_bounded(s, b.chunk_ids[i as int]);
    assert(ps[i as int].len() <= CHUNK_SIZE);
    assert(rec.length == ps[i as int].len());
    assert(rec.payload() =~= ps[i as int]);
}

/// A successful commit lays the object out exactly as the durable model
/// prescribes: its records sit at indices `0..n` where `n` is the number of
/// admitted chunks, every record before the last is full, the last is not
/// empty, and `n` is the declared total length divided by the chunk size,
/// rounded up.
pub proof fn lemma_commit_record_shape(s: StateView, wasm_id: Seq<char>, batch_id: u64, now: u64)
    requires
        s.wf(),
        find_batch(s.batches, batch_id) is Some,
        spec_commit(s, wasm_id, batch_id, now).1 == Ok::<(), RegistryError>(()),
    ensures
        ({
            let n = find_batch(s.batches, batch_id)->Some_0.chunk_ids.len() as int;
            let s2 = spec_commit(s, wasm_id, batch_id, now).0;
            &&& forall|j: u32| #![auto] s2.objects.dom().contains((wasm_id, j)) <==> j < n
            &&& forall|j: u32| #![auto]
                j + 1 < n ==> s2.objects[(wasm_id, j)].length == CHUNK_SIZE
            &&& n > 0 ==> s2.objects[(wasm_id, ((n - 1) as u32))].length > 0
            &&& n == (s.metadata[wasm_id].total_length + CHUNK_SIZE - 1) / (CHUNK_SIZE as int)
        }),
{
    let b = find_batch(s.batches, batch_id)->Some_0;
    let ps = payloads(s.chunks, b.chunk_ids);
    let n = b.chunk_ids.len() as int;
    let s2 = spec_commit(s, wasm_id, batch_id, now).0;
    let len_declared = s.metadata[wasm_id].total_length;
    assert(chunks_present(s.chunks, b.chunk_ids) && structural_ok(ps));
    assert(concat_payloads(ps).len() == len_declared);

    // The batch is a staged entry, so its size bound applies.
    crate::model::lemma_find_batch_characterize(s.batches, batch_id);
    assert(!(forall|i: int|
        0 <= i < s.batches.len() ==> (#[trigger] s.batches[i]).id != batch_id));
    let w = choose|w: int| 0 <= w < s.batches.len() && (#[trigger] s.batches[w]).id == batch_id;
    assert(s.batches[w] == b);
    assert(b.chunk_ids.len() * CHUNK_SIZE <= MAX_WASM_SIZE);
    // Spelled-out constants make the size bounds linear.
    assert(CHUNK_SIZE == 512000);
    assert(MAX_WASM_SIZE == 1024000);
    assert(n <= 2);

    // Record values and the cast from payload length.
    assert forall|j: u32| #![auto] j + 1 < n implies s2.objects[(wasm_id, j)].length
        == CHUNK_SIZE by {
        assert(ps[j as int].len() == CHUNK_SIZE);
    }
    if n > 0 {
        lemma_found_chunk_bounded(s, b.chunk_ids[n - 1]);
        assert(ps.last() == ps[n - 1]);
        assert(0 < ps[n - 1].len() <= CHUNK_SIZE);
        assert(s2.objects[(wasm_id, ((n - 1) as u32))].length == ps[n - 1].len());
    }

    // The declared length fixes the record count.
    crate::model::lemma_concat_len(ps);
    if n == 0 {
        assert(len_declared == 0);
    } else if n == 1 {
        let l = ps.last().len() as int;
        assert(len_declared == l);
        assert(1 <= l <= 512000);
        assert((l + 512000 - 1) / 512000 == 1);
    } else {
        let l = ps.last().len() as int;
        assert(len_declared == 512000 + l);
        assert(1 <= l <= 512000);
        assert((512000 + l + 512000 - 1) / 512000 == 2);
    }
}

/// A commit whose recomputed digest disagrees with the declared metadata
/// fails with `IntegrityMismatch`, destroys the batch, and leaves all
/// durable state exactly as it was.
pub proof fn lemma_commit_integrity_mismatch(
    s: StateView,
    wasm_id: Seq<char>,
    batch_id: u64,
    now: u64,
)
    requires
        s.wf(),
        find_batch(s.batches, batch_id) is Some,
        find_batch(s.batches, batch_id)->Some_0.expires_at > now,
        s.metadata.dom().contains(wasm_id),
        chunks_present(s.chunks, find_batch(s.batches, batch_id)->Some_0.chunk_ids),
        structural_ok(payloads(s.chunks, find_batch(s.batches, batch_id)->Some_0.chunk_ids)),
        sha256_of(
            concat_payloads(payloads(s.chunks, find_batch(s.batches, batch_id)->Some_0.chunk_ids)),
        ) != s.metadata[wasm_id].sha256,
    ensures
        spec_commit(s, wasm_id, batch_id, now).1 == Err::<(), RegistryError>(
            RegistryError::IntegrityMismatch,
        ),
        find_batch(spec_commit(s, wasm_id, batch_id, now).0.batches, batch_id) is None,
        spec_commit(s, wasm_id, batch_id, now).0.objects == s.objects,
        spec_commit(s, wasm_id, batch_id, now).0.metadata == s.metadata,
{
    lemma_find_batch_drop(s.batches, batch_id, batch_id);
}

/// A batch in which some chunk other than the final one is short cannot be
/// committed: the commit fails with `BadChunks`.
pub proof fn lemma_commit_bad_chunks(
    s: StateView,
    wasm_id: Seq<char>,
    batch_id: u64,
    now: u64,
    j: int,
)
    requires
        s.wf(),
        find_batch(s.batches, batch_id) is Some,
        find_batch(s.batches, batch_id)->Some_0.expires_at > now,
        s.metadata.dom().contains(wasm_id),
        0 <= j < find_batch(s.batches, batch_id)->Some_0.chunk_ids.len() - 1,
        payloads(s.chunks, find_batch(s.batches, batch_id)->Some_0.chunk_ids)[j].len()
            < CHUNK_SIZE,
    ensures
        spec_commit(s, wasm_id, batch_id, now).1 == Err::<(), RegistryError>(
            RegistryError::BadChunks,
        ),
        find_batch(spec_commit(s, wasm_id, batch_id, now).0.batches, batch_id) is None,
        spec_commit(s, wasm_id, batch_id, now).0.objects == s.objects,
{
    let ps = payloads(s.chunks, find_batch(s.batches, batch_id)->Some_0.chunk_ids);
    assert(!structural_ok(ps));
    lemma_find_batch_drop(s.batches, batch_id, batch_id);
}

/// A batch whose expiry has elapsed is unreachable: admitting a chunk of
/// admissible size and committing both fail with `BatchNotFound` and change
/// nothing, and the next batch opening purges the batch together with every
/// chunk it owns.
pub proof fn lemma_expired_batch_unreachable(
    s: StateView,
    batch_id: u64,
    content: Seq<u8>,
    wasm_id: Seq<char>,
    now: u64,
)
    requires
        s.wf(),
        find_batch(s.batches, batch_id) is Some,
        find_batch(s.batches, batch_id)->Some_0.expires_at <= now,
        content.len() <= CHUNK_SIZE,
    ensures
        spec_create_chunk(s, batch_id, content, now) == (
            s,
            Err::<u64, RegistryError>(RegistryError::BatchNotFound),
        ),
        spec_commit(s, wasm_id, batch_id, now) == (
            s,
            Err::<(), RegistryError>(RegistryError::BatchNotFound),
        ),
        find_batch(spec_create_batch(s, now).0.batches, batch_id) is None,
        forall|cid: u64|
            (#[trigger] find_chunk(s.chunks, cid)) matches Some(c) && c.batch_id == batch_id
                ==> find_chunk(spec_create_batch(s, now).0.chunks, cid) is None,
{
    let b = find_batch(s.batches, batch_id)->Some_0;
    let fresh = crate::model::BatchV {
        id: s.next_batch_id,
        chunk_ids: Seq::empty(),
        expires_at: crate::model::new_expiry(now),
    };
    lemma_find_batch_gc(s.batches, now, batch_id);
    // The fresh batch's id is new, so it cannot resurrect the expired one.
    crate::model::lemma_find_batch_characterize(s.batches, batch_id);
    assert(!(forall|i: int|
        0 <= i < s.batches.len() ==> (#[trigger] s.batches[i]).id != batch_id));
    let w = choose|w: int| 0 <= w < s.batches.len() && (#[trigger] s.batches[w]).id == batch_id;
    assert(s.batches[w].id < s.next_batch_id);
    lemma_find_batch_push(crate::model::gc_batches(s.batches, now), fresh, batch_id);
    assert forall|cid: u64|
        (#[trigger] find_chunk(s.chunks, cid)) matches Some(c) && c.batch_id == batch_id
            implies find_chunk(spec_create_batch(s, now).0.chunks, cid) is None by {
        lemma_find_chunk_gc(s.chunks, s.batches, now, cid);
    }
}

/// Re-committing an object with fewer chunks than a prior version removes
/// the stale higher-index durable records: after a successful commit of `n`
/// chunks, a durable read of any index at or above `n` reports
/// `ChunkNotFound`, whatever was stored there before.
pub proof fn lemma_recommit_removes_stale(
    s: StateView,
    wasm_id: Seq<char>,
    batch_id: u64,
    now: u64,
    j: u32,
)
    requires
        s.wf(),
        spec_commit(s, wasm_id, batch_id, now).1 == Ok::<(), RegistryError>(()),
        find_batch(s.batches, batch_id) is Some,
        j >= find_batch(s.batches, batch_id)->Some_0.chunk_ids.len(),
    ensures
        spec_get_chunk(spec_commit(s, wasm_id, batch_id, now).0, wasm_id, j) == Err::<
            crate::types::RecView,
            RegistryError,
        >(RegistryError::ChunkNotFound),
{
    let s2 = spec_commit(s, wasm_id, batch_id, now).0;
    assert(!s2.objects.dom().contains((wasm_id, j)));
}

} // verus!
