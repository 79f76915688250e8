//! The registry itself: volatile staging plus durable storage, with every
//! public operation specified against the transition functions of
//! `crate::model`.

use vstd::prelude::*;

use crate::codec::{
    decode_chunk, decode_metadata, encode_chunk, encode_chunk_key, encode_metadata, pad_content,
    spec_decode_chunk, spec_decode_metadata,
};
use crate::digest::sha256;
use crate::model::{
    batch_ids_unique, chunk_alive, chunk_ids_unique, chunks_present, concat_payloads,
    commit_objects, decoded_metadata, decoded_objects, discard_batch, drop_batch, drop_chunks_of,
    find_batch, find_chunk, gc_batches, gc_chunks,
    lemma_decoded_metadata_insert, lemma_decoded_objects_insert, lemma_decoded_objects_remove,
    lemma_drop_batch_push, lemma_drop_chunks_of_push, lemma_find_batch_characterize,
    lemma_find_batch_gc, lemma_find_batch_push,
    lemma_find_chunk_characterize, lemma_find_chunk_gc,
    lemma_find_chunk_push, lemma_gc_batches_push, lemma_gc_batches_sub, lemma_gc_batches_unique,
    lemma_gc_chunks_push, lemma_gc_chunks_sub, lemma_gc_chunks_unique, new_expiry, payloads,
    spec_authorize, spec_commit, spec_create_batch,
    spec_create_chunk, spec_declare, spec_get_chunk, spec_init, spec_is_authorized, spec_padded,
    structural_ok, BatchV, ChunkV, StateView,
};
use crate::regions::{stored_chunks, stored_metadata, stored_principals, StableRegions};
use crate::types::{
    BatchOperation, CommitBatchArguments, RegistryError, WasmAssetChunk, WasmAssetMetadata,
    BATCH_EXPIRY_NANOS, CHUNK_SIZE, MAX_WASM_SIZE,
};

verus! {

/// One staged batch: the ids of its chunks in upload order, and the moment
/// it becomes eligible for garbage collection.
pub struct BatchEntry {
    pub id: u64,
    pub chunk_ids: Vec<u64>,
    pub expires_at: u64,
}

impl View for BatchEntry {
    type V = BatchV;

    open spec fn view(&self) -> BatchV {
        BatchV { id: self.id, chunk_ids: self.chunk_ids@, expires_at: self.expires_at }
    }
}

impl Clone for BatchEntry {
    fn clone(&self) -> (r: Self)
        ensures
            r@ == self@,
    {
        let r = BatchEntry {
            id: self.id,
            chunk_ids: self.chunk_ids.clone(),
            expires_at: self.expires_at,
        };
        proof {
            assert(r.chunk_ids@ =~= self.chunk_ids@);
        }
        r
    }
}

/// One staged chunk: its owning batch and its raw content.
pub struct ChunkEntry {
    pub id: u64,
    pub batch_id: u64,
    pub content: Vec<u8>,
}

impl Clone for ChunkEntry {
    fn clone(&self) -> (r: Self)
        ensures
            r@ == self@,
    {
        let r = ChunkEntry {
            id: self.id,
            batch_id: self.batch_id,
            content: self.content.clone(),
        };
        proof {
            assert(r.content@ =~= self.content@);
        }
        r
    }
}

impl View for ChunkEntry {
    type V = ChunkV;

    open spec fn view(&self) -> ChunkV {
        ChunkV { id: self.id, batch_id: self.batch_id, content: self.content@ }
    }
}

/// Ghost image of a staged batch list.
pub open spec fn batches_view(v: Seq<BatchEntry>) -> Seq<BatchV> {
    Seq::new(v.len(), |i: int| v[i]@)
}

/// Ghost image of a staged chunk list.
pub open spec fn chunks_view(v: Seq<ChunkEntry>) -> Seq<ChunkV> {
    Seq::new(v.len(), |i: int| v[i]@)
}

/// The store: a volatile staging area and the durable storage regions.
/// It is constructed explicitly at process start and passed to every
/// operation; there is no hidden global state.
pub struct Registry {
    batches: Vec<BatchEntry>,
    chunks: Vec<ChunkEntry>,
    next_batch_id: u64,
    next_chunk_id: u64,
    regions: StableRegions,
}

impl View for Registry {
    type V = StateView;

    closed spec fn view(&self) -> StateView {
        StateView {
            batches: batches_view(self.batches@),
            chunks: chunks_view(self.chunks@),
            next_batch_id: self.next_batch_id,
            next_chunk_id: self.next_chunk_id,
            metadata: decoded_metadata(stored_metadata(self.regions)),
            objects: decoded_objects(stored_chunks(self.regions)),
            authorized: stored_principals(self.regions),
        }
    }
}

impl Registry {
    /// The abstract state is well formed and every stored byte string is a
    /// well-formed record of the codec.
    pub closed spec fn wf(self) -> bool {
        &&& self@.wf()
        &&& forall|k: Seq<char>|
            #[trigger] stored_metadata(self.regions).dom().contains(k) ==> spec_decode_metadata(
                stored_metadata(self.regions)[k],
            ) is Some
        &&& forall|k: Seq<u8>|
            #[trigger] stored_chunks(self.regions).dom().contains(k) ==> spec_decode_chunk(
                stored_chunks(self.regions)[k],
            ) is Some
    }

    /// A fresh, empty store.
    pub fn new() -> (r: Registry)
        ensures
            r.wf(),
            r@.batches == Seq::<BatchV>::empty(),
            r@.chunks == Seq::<ChunkV>::empty(),
            r@.next_batch_id == 0u64,
            r@.next_chunk_id == 0u64,
            r@.metadata == Map::<Seq<char>, crate::types::MetaView>::empty(),
            r@.objects == Map::<(Seq<char>, u32), crate::types::RecView>::empty(),
            r@.authorized == Seq::<Seq<u8>>::empty(),
    {
        let r = Registry {
            batches: Vec::new(),
            chunks: Vec::new(),
            next_batch_id: 0,
            next_chunk_id: 0,
            regions: StableRegions::new(),
        };
        proof {
            assert(batches_view(r.batches@) =~= Seq::<BatchV>::empty());
            assert(chunks_view(r.chunks@) =~= Seq::<ChunkV>::empty());
            assert(decoded_metadata(stored_metadata(r.regions)) =~= Map::<
                Seq<char>,
                crate::types::MetaView,
            >::empty());
            assert(decoded_objects(stored_chunks(r.regions)) =~= Map::<
                (Seq<char>, u32),
                crate::types::RecView,
            >::empty());
        }
        r
    }

    /// The id the next opened batch will get; lets a caller check that the
    /// id space is not exhausted before opening a batch.
    pub fn peek_next_batch_id(&self) -> (r: u64)
        ensures
            r == self@.next_batch_id,
    {
        self.next_batch_id
    }

    /// The id the next admitted chunk will get.
    pub fn peek_next_chunk_id(&self) -> (r: u64)
        ensures
            r == self@.next_chunk_id,
    {
        self.next_chunk_id
    }
}

impl Registry {
    /// Declares (or overwrites) the metadata a later commit of `wasm_id`
    /// will be validated against.
    pub fn do_create_asset(
        &mut self,
        wasm_id: String,
        total_length: u64,
        sha256_digest: [u8; 32],
        now: u64,
    )
        requires
            old(self).wf(),
        ensures
            final(self).wf(),
            final(self)@ == spec_declare(old(self)@, wasm_id@, total_length, sha256_digest@, now),
    {
        let meta = WasmAssetMetadata { modified: now, total_length, sha256: sha256_digest };
        let enc = encode_metadata(&meta);
        let ghost target = spec_declare(self@, wasm_id@, total_length, sha256_digest@, now);
        proof {
            crate::codec::lemma_metadata_roundtrip(meta@);
            lemma_decoded_metadata_insert(stored_metadata(self.regions), wasm_id@, enc@);
        }
        self.regions.meta_insert(wasm_id, enc);
        proof {
            assert(self@ =~~= target);
            assert(self@.wf());
        }
    }

    /// Durable read of the chunk record at `index` of object `wasm_id`.
    pub fn get_chunk(&self, wasm_id: &String, index: u32) -> (r: Result<
        WasmAssetChunk,
        RegistryError,
    >)
        requires
            self.wf(),
        ensures
            r matches Ok(rec) ==> spec_get_chunk(self@, wasm_id@, index) == Ok::<
                crate::types::RecView,
                RegistryError,
            >(rec@),
            r matches Err(e) ==> spec_get_chunk(self@, wasm_id@, index) == Err::<
                crate::types::RecView,
                RegistryError,
            >(e),
    {
        let key = encode_chunk_key(wasm_id, index);
        match self.regions.chunk_get(&key) {
            None => Err(RegistryError::ChunkNotFound),
            Some(bytes) => {
                match decode_chunk(&bytes) {
                    Some(rec) => Ok(rec),
                    None => {
                        // Well-formed stores only hold decodable records.
                        proof {
                            assert(false);
                        }
                        Err(RegistryError::ChunkNotFound)
                    },
                }
            },
        }
    }

    /// Whether `caller` may mutate the store; the error carries the text the
    /// remote surface reports.
    pub fn is_authorized(&self, caller: &Vec<u8>) -> (r: Result<(), String>)
        ensures
            r is Ok <==> spec_is_authorized(self@, caller@),
            r matches Err(m) ==> m@ == "Caller is not authorized"@,
    {
        if self.auth_contains(caller) {
            Ok(())
        } else {
            Err(String::from_str("Caller is not authorized"))
        }
    }

    /// Whether the principal is in the authorized list.
    fn auth_contains(&self, p: &Vec<u8>) -> (r: bool)
        ensures
            r == self@.authorized.contains(p@),
    {
        let n = self.regions.auth_len();
        let mut i: u64 = 0;
        while i < n
            invariant
                i <= n,
                n == stored_principals(self.regions).len(),
                forall|j: int| 0 <= j < i ==> stored_principals(self.regions)[j] != p@,
            decreases n - i,
        {
            match self.regions.auth_get(i) {
                Some(q) => {
                    if bytes_eq(&q, p) {
                        return true;
                    }
                },
                None => {
                    proof {
                        assert(false);
                    }
                },
            }
            i = i + 1;
        }
        false
    }

    /// Grants `target` the right to mutate the store, provided `caller`
    /// already has it and `target` does not; otherwise a silent no-op.
    pub fn authorize(&mut self, caller: &Vec<u8>, target: &Vec<u8>)
        requires
            old(self).wf(),
            target@.len() <= 29,
        ensures
            final(self).wf(),
            final(self)@ == spec_authorize(old(self)@, caller@, target@),
    {
        let ghost pre = self@;
        let caller_in = self.auth_contains(caller);
        let target_in = self.auth_contains(target);
        if caller_in && !target_in {
            self.regions.auth_push(target);
            proof {
                assert(self@ =~~= spec_authorize(pre, caller@, target@));
            }
        } else {
            proof {
                assert(self@ =~~= spec_authorize(pre, caller@, target@));
            }
        }
    }

    /// Bootstrap seeding at process start: clears nothing (there is nothing
    /// to clear on a fresh store) and makes the installing principal the
    /// first member of the authorized list unless already present.
    pub fn init(&mut self, installer: &Vec<u8>)
        requires
            old(self).wf(),
            installer@.len() <= 29,
        ensures
            final(self).wf(),
            final(self)@ == spec_init(old(self)@, installer@),
    {
        let ghost pre = self@;
        do_clear();
        if !self.auth_contains(installer) {
            self.regions.auth_push(installer);
        }
        proof {
            assert(self@ =~~= spec_init(pre, installer@));
        }
    }
}

/// Clearing the asset state is not part of the active surface; the
/// operation is accepted and does nothing.
pub fn do_clear() {
}

impl Registry {
    /// Opens a fresh batch at time `now`.  Every batch whose expiry has
    /// passed is first swept out together with its staged chunks; the new
    /// batch gets a strictly increasing id and a full expiry window.
    pub fn create_batch(&mut self, now: u64) -> (r: u64)
        requires
            old(self).wf(),
            old(self)@.next_batch_id < u64::MAX,
            now <= u64::MAX - BATCH_EXPIRY_NANOS,
        ensures
            final(self).wf(),
            final(self)@ == spec_create_batch(old(self)@, now).0,
            r == spec_create_batch(old(self)@, now).1,
    {
        let ghost pre = self@;
        let batch_id = self.next_batch_id;
        self.next_batch_id = self.next_batch_id + 1;

        // Sweep expired batches.
        let mut survivors: Vec<BatchEntry> = Vec::new();
        let mut i: usize = 0;
        proof {
            assert(pre.batches.take(0) =~= Seq::<BatchV>::empty());
        }
        while i < self.batches.len()
            invariant
                i <= self.batches@.len(),
                batches_view(self.batches@) == pre.batches,
                batches_view(survivors@) == gc_batches(pre.batches.take(i as int), now),
            decreases self.batches@.len() - i,
        {
            let ghost prefix = pre.batches.take(i as int);
            if self.batches[i].expires_at > now {
                survivors.push(self.batches[i].clone());
            }
            proof {
                lemma_gc_batches_push(prefix, pre.batches[i as int], now);
                assert(pre.batches.take(i + 1) =~= prefix.push(pre.batches[i as int]));
                assert(batches_view(survivors@) =~= gc_batches(pre.batches.take(i + 1), now));
            }
            i = i + 1;
        }
        proof {
            assert(pre.batches.take(pre.batches.len() as int) =~= pre.batches);
        }

        // Sweep the chunks of expired batches.
        let mut live: Vec<ChunkEntry> = Vec::new();
        let mut j: usize = 0;
        proof {
            assert(pre.chunks.take(0) =~= Seq::<ChunkV>::empty());
        }
        while j < self.chunks.len()
            invariant
                j <= self.chunks@.len(),
                batches_view(self.batches@) == pre.batches,
                chunks_view(self.chunks@) == pre.chunks,
                chunks_view(live@) == gc_chunks(pre.chunks.take(j as int), pre.batches, now),
            decreases self.chunks@.len() - j,
        {
            let ghost prefix = pre.chunks.take(j as int);
            let alive = match find_batch_ref(&self.batches, self.chunks[j].batch_id) {
                Some(bi) => self.batches[bi].expires_at > now,
                None => false,
            };
            proof {
                assert(alive == chunk_alive(pre.batches, pre.chunks[j as int], now));
            }
            if alive {
                live.push(self.chunks[j].clone());
            }
            proof {
                lemma_gc_chunks_push(prefix, pre.chunks[j as int], pre.batches, now);
                assert(pre.chunks.take(j + 1) =~= prefix.push(pre.chunks[j as int]));
                assert(chunks_view(live@) =~= gc_chunks(
                    pre.chunks.take(j + 1),
                    pre.batches,
                    now,
                ));
            }
            j = j + 1;
        }
        proof {
            assert(pre.chunks.take(pre.chunks.len() as int) =~= pre.chunks);
        }

        self.batches = survivors;
        self.chunks = live;
        self.batches.push(
            BatchEntry { id: batch_id, chunk_ids: Vec::new(), expires_at: now + BATCH_EXPIRY_NANOS },
        );
        proof {
            assert(batches_view(self.batches@) =~= gc_batches(pre.batches, now).push(
                BatchV { id: batch_id, chunk_ids: Seq::empty(), expires_at: new_expiry(now) },
            ));
            self.lemma_create_batch_ok(pre, now, batch_id);
        }
        batch_id
    }

    /// The sweep and the fresh batch preserve well-formedness and land on
    /// the specified state.
    proof fn lemma_create_batch_ok(self, pre: StateView, now: u64, batch_id: u64)
        requires
            pre.wf(),
            batch_id == pre.next_batch_id,
            pre.next_batch_id < u64::MAX,
            now <= u64::MAX - BATCH_EXPIRY_NANOS,
            self@.batches == gc_batches(pre.batches, now).push(
                BatchV { id: batch_id, chunk_ids: Seq::empty(), expires_at: new_expiry(now) },
            ),
            self@.chunks == gc_chunks(pre.chunks, pre.batches, now),
            self@.next_batch_id == pre.next_batch_id + 1,
            self@.next_chunk_id == pre.next_chunk_id,
            self@.metadata == pre.metadata,
            self@.objects == pre.objects,
            self@.authorized == pre.authorized,
            forall|k: Seq<char>|
                #[trigger] stored_metadata(self.regions).dom().contains(k)
                    ==> spec_decode_metadata(stored_metadata(self.regions)[k]) is Some,
            forall|k: Seq<u8>|
                #[trigger] stored_chunks(self.regions).dom().contains(k) ==> spec_decode_chunk(
                    stored_chunks(self.regions)[k],
                ) is Some,
        ensures
            self.wf(),
            self@ == spec_create_batch(pre, now).0,
    {
        let fresh = BatchV { id: batch_id, chunk_ids: Seq::empty(), expires_at: new_expiry(now) };
        let gb = gc_batches(pre.batches, now);
        let gch = gc_chunks(pre.chunks, pre.batches, now);
        let s2 = self@;
        lemma_gc_batches_unique(pre.batches, now);
        lemma_gc_batches_sub(pre.batches, now);
        lemma_gc_chunks_unique(pre.chunks, pre.batches, now);
        lemma_gc_chunks_sub(pre.chunks, pre.batches, now);
        crate::model::lemma_find_batch_characterize(gb, batch_id);

        // Batch ids stay unique and bounded; the fresh id is new.
        assert forall|i: int| 0 <= i < gb.len() implies (#[trigger] gb[i]).id
            < pre.next_batch_id by {
            assert(pre.batches.contains(gb[i]));
            let w = choose|w: int| 0 <= w < pre.batches.len() && pre.batches[w] == gb[i];
            assert(pre.batches[w].id < pre.next_batch_id);
        }
        assert(batch_ids_unique(s2.batches));

        // Swept entries keep every per-entry bound they had.
        assert forall|i: int| 0 <= i < gb.len() implies (#[trigger] gb[i]).chunk_ids.len()
            * CHUNK_SIZE <= MAX_WASM_SIZE by {
            assert(pre.batches.contains(gb[i]));
            let w = choose|w: int| 0 <= w < pre.batches.len() && pre.batches[w] == gb[i];
            assert(pre.batches[w].chunk_ids.len() * CHUNK_SIZE <= MAX_WASM_SIZE);
        }
        assert forall|i: int| 0 <= i < gch.len() implies (#[trigger] gch[i]).id
            < pre.next_chunk_id && gch[i].content.len() <= CHUNK_SIZE by {
            assert(pre.chunks.contains(gch[i]));
            let w = choose|w: int| 0 <= w < pre.chunks.len() && pre.chunks[w] == gch[i];
            assert(pre.chunks[w].id < pre.next_chunk_id);
        }

        // Surviving batches still own all their listed chunks.
        assert forall|i: int, j: int|
            #![trigger s2.batches[i].chunk_ids[j]]
            0 <= i < s2.batches.len() && 0 <= j < s2.batches[i].chunk_ids.len() implies {
            let found = find_chunk(s2.chunks, s2.batches[i].chunk_ids[j]);
            &&& found is Some
            &&& found->Some_0.batch_id == s2.batches[i].id
        } by {
            let b = s2.batches[i];
            if i < gb.len() {
                assert(pre.batches.contains(b));
                let w = choose|w: int| 0 <= w < pre.batches.len() && pre.batches[w] == b;
                // The surviving batch is alive: a swept-out batch would not
                // be findable in the sweep's result.
                crate::model::lemma_find_batch_characterize(pre.batches, b.id);
                assert(find_batch(pre.batches, b.id) == Some(b));
                lemma_find_batch_gc(pre.batches, now, b.id);
                crate::model::lemma_find_batch_characterize(gb, b.id);
                assert(find_batch(gb, b.id) == Some(gb[i]));
                assert(b.expires_at > now);
                let cid = b.chunk_ids[j];
                assert(pre.batches[w].chunk_ids[j] == cid);
                let found = find_chunk(pre.chunks, cid);
                assert(found is Some && found->Some_0.batch_id == b.id);
                let c = found->Some_0;
                assert(chunk_alive(pre.batches, c, now));
                lemma_find_chunk_gc(pre.chunks, pre.batches, now, cid);
            }
        }

        // Surviving chunks still have their owner, which still lists them.
        assert forall|i: int| 0 <= i < s2.chunks.len() implies {
            let owner = find_batch(s2.batches, (#[trigger] s2.chunks[i]).batch_id);
            &&& owner is Some
            &&& owner->Some_0.chunk_ids.contains(s2.chunks[i].id)
        } by {
            let c = s2.chunks[i];
            assert(pre.chunks.contains(c));
            let w = choose|w: int| 0 <= w < pre.chunks.len() && pre.chunks[w] == c;
            // The chunk survived, so its owner is alive.
            crate::model::lemma_find_chunk_characterize(gch, c.id);
            lemma_gc_chunks_unique(pre.chunks, pre.batches, now);
            assert(find_chunk(gch, c.id) == Some(gch[i]));
            lemma_find_chunk_gc(pre.chunks, pre.batches, now, c.id);
            crate::model::lemma_find_chunk_characterize(pre.chunks, c.id);
            assert(find_chunk(pre.chunks, c.id) == Some(c));
            assert(chunk_alive(pre.batches, c, now));
            let owner0 = find_batch(pre.batches, c.batch_id);
            assert(owner0 is Some && owner0->Some_0.expires_at > now);
            lemma_find_batch_gc(pre.batches, now, c.batch_id);
            assert(find_batch(gb, c.batch_id) == owner0);
            lemma_find_batch_push(gb, fresh, c.batch_id);
        }

        assert(s2.wf());
        assert(s2 =~~= spec_create_batch(pre, now).0);
    }

    /// Admits one chunk into a live batch: refreshes the batch's expiry,
    /// allocates a fresh chunk id, appends it to the batch and stages the
    /// content.  Oversized content, an unknown or expired batch, and a batch
    /// already at the object size bound are rejected with the state left
    /// exactly as it was.
    pub fn create_chunk(&mut self, batch_id: u64, content: Vec<u8>, now: u64) -> (r: Result<
        u64,
        RegistryError,
    >)
        requires
            old(self).wf(),
            old(self)@.next_chunk_id < u64::MAX,
            now <= u64::MAX - BATCH_EXPIRY_NANOS,
        ensures
            final(self).wf(),
            final(self)@ == spec_create_chunk(old(self)@, batch_id, content@, now).0,
            r == spec_create_chunk(old(self)@, batch_id, content@, now).1,
    {
        let ghost pre = self@;
        if content.len() > CHUNK_SIZE {
            return Err(RegistryError::ContentTooLarge);
        }
        let bi = match find_batch_ref(&self.batches, batch_id) {
            None => {
                return Err(RegistryError::BatchNotFound);
            },
            Some(bi) => bi,
        };
        if self.batches[bi].expires_at <= now {
            return Err(RegistryError::BatchNotFound);
        }
        proof {
            // The staged batch respects the size bound, so the admission
            // check below cannot overflow.
            assert(pre.batches[bi as int].chunk_ids.len() * CHUNK_SIZE <= MAX_WASM_SIZE);
            assert(self.batches@[bi as int]@.chunk_ids.len() <= 2);
        }
        if (self.batches[bi].chunk_ids.len() + 1) * CHUNK_SIZE > MAX_WASM_SIZE {
            return Err(RegistryError::ObjectTooLarge);
        }
        let cid = self.next_chunk_id;
        self.next_chunk_id = self.next_chunk_id + 1;
        let mut entry = self.batches[bi].clone();
        entry.chunk_ids.push(cid);
        entry.expires_at = now + BATCH_EXPIRY_NANOS;
        self.batches[bi] = entry;
        self.chunks.push(ChunkEntry { id: cid, batch_id, content });
        proof {
            assert(batches_view(self.batches@) =~= pre.batches.update(
                bi as int,
                BatchV {
                    id: batch_id,
                    chunk_ids: pre.batches[bi as int].chunk_ids.push(cid),
                    expires_at: new_expiry(now),
                },
            ));
            assert(chunks_view(self.chunks@) =~= pre.chunks.push(
                ChunkV { id: cid, batch_id, content: self@.chunks.last().content },
            ));
            self.lemma_create_chunk_ok(pre, batch_id, cid, now, bi as int);
        }
        Ok(cid)
    }

    /// Admission preserves well-formedness and lands on the specified state.
    proof fn lemma_create_chunk_ok(
        self,
        pre: StateView,
        batch_id: u64,
        cid: u64,
        now: u64,
        bi: int,
    )
        requires
            pre.wf(),
            cid == pre.next_chunk_id,
            pre.next_chunk_id < u64::MAX,
            now <= u64::MAX - BATCH_EXPIRY_NANOS,
            0 <= bi < pre.batches.len(),
            pre.batches[bi].id == batch_id,
            find_batch(pre.batches, batch_id) == Some(pre.batches[bi]),
            pre.batches[bi].expires_at > now,
            (pre.batches[bi].chunk_ids.len() + 1) * CHUNK_SIZE <= MAX_WASM_SIZE,
            self@.batches == pre.batches.update(
                bi,
                BatchV {
                    id: batch_id,
                    chunk_ids: pre.batches[bi].chunk_ids.push(cid),
                    expires_at: new_expiry(now),
                },
            ),
            ({
                let newc = ChunkV { id: cid, batch_id, content: self@.chunks.last().content };
                self@.chunks == pre.chunks.push(newc)
            }),
            self@.chunks.last().content.len() <= CHUNK_SIZE,
            self@.next_batch_id == pre.next_batch_id,
            self@.next_chunk_id == pre.next_chunk_id + 1,
            self@.metadata == pre.metadata,
            self@.objects == pre.objects,
            self@.authorized == pre.authorized,
            forall|k: Seq<char>|
                #[trigger] stored_metadata(self.regions).dom().contains(k)
                    ==> spec_decode_metadata(stored_metadata(self.regions)[k]) is Some,
            forall|k: Seq<u8>|
                #[trigger] stored_chunks(self.regions).dom().contains(k) ==> spec_decode_chunk(
                    stored_chunks(self.regions)[k],
                ) is Some,
        ensures
            self.wf(),
            self@ == spec_create_chunk(pre, batch_id, self@.chunks.last().content, now).0,
            spec_create_chunk(pre, batch_id, self@.chunks.last().content, now).1 == Ok::<
                u64,
                RegistryError,
            >(cid),
    {
        let content = self@.chunks.last().content;
        let newc = ChunkV { id: cid, batch_id, content };
        let b2 = BatchV {
            id: batch_id,
            chunk_ids: pre.batches[bi].chunk_ids.push(cid),
            expires_at: new_expiry(now),
        };
        let s2 = self@;

        // The updated list is what the transition's map produces.
        assert(s2.batches =~= pre.batches.map_values(
            |x: BatchV| if x.id == batch_id { b2 } else { x },
        ));
        assert(s2 =~~= spec_create_chunk(pre, batch_id, content, now).0);

        // Well-formedness.
        assert(batch_ids_unique(s2.batches));
        assert(chunk_ids_unique(s2.chunks)) by {
            assert forall|i: int, j: int| 0 <= i < j < s2.chunks.len() implies s2.chunks[i].id
                != s2.chunks[j].id by {
                if j == s2.chunks.len() - 1 {
                    assert(s2.chunks[i] == pre.chunks[i]);
                    assert(pre.chunks[i].id < pre.next_chunk_id);
                }
            }
        }
        assert forall|i: int, j: int|
            #![trigger s2.batches[i].chunk_ids[j]]
            0 <= i < s2.batches.len() && 0 <= j < s2.batches[i].chunk_ids.len() implies {
            let found = find_chunk(s2.chunks, s2.batches[i].chunk_ids[j]);
            &&& found is Some
            &&& found->Some_0.batch_id == s2.batches[i].id
        } by {
            let dd = s2.batches[i].chunk_ids[j];
            if i == bi && j == s2.batches[i].chunk_ids.len() - 1 {
                crate::model::lemma_find_chunk_absent(pre.chunks, cid);
                lemma_find_chunk_push(pre.chunks, newc, cid);
                assert(find_chunk(s2.chunks, cid) == Some(newc));
            } else {
                assert(pre.batches[i].chunk_ids[j] == dd);
                let found = find_chunk(pre.chunks, dd);
                assert(found is Some && found->Some_0.batch_id == pre.batches[i].id);
                lemma_find_chunk_push(pre.chunks, newc, dd);
            }
        }
        assert forall|i: int| 0 <= i < s2.chunks.len() implies {
            let owner = find_batch(s2.batches, (#[trigger] s2.chunks[i]).batch_id);
            &&& owner is Some
            &&& owner->Some_0.chunk_ids.contains(s2.chunks[i].id)
        } by {
            let c = s2.chunks[i];
            lemma_find_batch_characterize(pre.batches, c.batch_id);
            lemma_find_batch_characterize(s2.batches, c.batch_id);
            if i < s2.chunks.len() - 1 {
                assert(c == pre.chunks[i]);
                let owner0 = find_batch(pre.batches, c.batch_id);
                assert(owner0 is Some && owner0->Some_0.chunk_ids.contains(c.id));
                let w = choose|w: int|
                    0 <= w < pre.batches.len() && (#[trigger] pre.batches[w]).id == c.batch_id
                        && find_batch(pre.batches, c.batch_id) == Some(pre.batches[w]);
                assert(s2.batches[w].id == c.batch_id);
                assert(find_batch(s2.batches, c.batch_id) == Some(s2.batches[w]));
                if w == bi {
                    assert(owner0->Some_0 == pre.batches[bi]);
                    let ids = pre.batches[bi].chunk_ids;
                    let x = choose|x: int| 0 <= x < ids.len() && ids[x] == c.id;
                    assert(b2.chunk_ids[x] == c.id);
                    assert(b2.chunk_ids.contains(c.id));
                } else {
                    assert(s2.batches[w] == pre.batches[w]);
                }
            } else {
                assert(c == newc);
                assert(s2.batches[bi].id == batch_id);
                assert(find_batch(s2.batches, batch_id) == Some(s2.batches[bi]));
                assert(b2.chunk_ids.last() == cid);
                assert(b2.chunk_ids.contains(cid));
            }
        }
        assert(s2.wf());
    }
}

impl Registry {
    /// Removes one batch and every chunk it owns from the staging area.
    fn discard_batch_entries(&mut self, batch_id: u64)
        ensures
            final(self)@.batches == drop_batch(old(self)@.batches, batch_id),
            final(self)@.chunks == drop_chunks_of(old(self)@.chunks, batch_id),
            final(self)@.next_batch_id == old(self)@.next_batch_id,
            final(self)@.next_chunk_id == old(self)@.next_chunk_id,
            final(self)@.metadata == old(self)@.metadata,
            final(self)@.objects == old(self)@.objects,
            final(self)@.authorized == old(self)@.authorized,
            final(self).regions == old(self).regions,
    {
        let ghost pre = self@;
        let mut kept_batches: Vec<BatchEntry> = Vec::new();
        let mut i: usize = 0;
        proof {
            assert(pre.batches.take(0) =~= Seq::<BatchV>::empty());
        }
        while i < self.batches.len()
            invariant
                i <= self.batches@.len(),
                batches_view(self.batches@) == pre.batches,
                batches_view(kept_batches@) == drop_batch(pre.batches.take(i as int), batch_id),
            decreases self.batches@.len() - i,
        {
            let ghost prefix = pre.batches.take(i as int);
            if self.batches[i].id != batch_id {
                kept_batches.push(self.batches[i].clone());
            }
            proof {
                lemma_drop_batch_push(prefix, pre.batches[i as int], batch_id);
                assert(pre.batches.take(i + 1) =~= prefix.push(pre.batches[i as int]));
                assert(batches_view(kept_batches@) =~= drop_batch(
                    pre.batches.take(i + 1),
                    batch_id,
                ));
            }
            i = i + 1;
        }
        proof {
            assert(pre.batches.take(pre.batches.len() as int) =~= pre.batches);
        }
        let mut kept_chunks: Vec<ChunkEntry> = Vec::new();
        let mut j: usize = 0;
        proof {
            assert(pre.chunks.take(0) =~= Seq::<ChunkV>::empty());
        }
        while j < self.chunks.len()
            invariant
                j <= self.chunks@.len(),
                chunks_view(self.chunks@) == pre.chunks,
                chunks_view(kept_chunks@) == drop_chunks_of(pre.chunks.take(j as int), batch_id),
            decreases self.chunks@.len() - j,
        {
            let ghost prefix = pre.chunks.take(j as int);
            if self.chunks[j].batch_id != batch_id {
                kept_chunks.push(self.chunks[j].clone());
            }
            proof {
                lemma_drop_chunks_of_push(prefix, pre.chunks[j as int], batch_id);
                assert(pre.chunks.take(j + 1) =~= prefix.push(pre.chunks[j as int]));
                assert(chunks_view(kept_chunks@) =~= drop_chunks_of(
                    pre.chunks.take(j + 1),
                    batch_id,
                ));
            }
            j = j + 1;
        }
        proof {
            assert(pre.chunks.take(pre.chunks.len() as int) =~= pre.chunks);
        }
        self.batches = kept_batches;
        self.chunks = kept_chunks;
    }

    /// Commits the batch's staged chunks as the content of object
    /// `wasm_id`.  The chunks are checked for shape (only the final chunk
    /// may be short) and for integrity (total length and SHA-256 digest
    /// against the declared metadata); on success they become the object's
    /// durable records, every stale higher-index record of a previous,
    /// larger version is removed, and the batch is discarded.  On the two
    /// validation failures the batch is discarded and durable state is
    /// untouched; an unknown or expired batch or missing metadata leaves
    /// the store unchanged.
    pub fn do_set_asset_content(&mut self, wasm_id: &String, batch_id: u64, now: u64) -> (r:
        Result<(), RegistryError>)
        requires
            old(self).wf(),
        ensures
            final(self).wf(),
            final(self)@ == spec_commit(old(self)@, wasm_id@, batch_id, now).0,
            r == spec_commit(old(self)@, wasm_id@, batch_id, now).1,
    {
        let ghost pre = self@;
        let bi = match find_batch_ref(&self.batches, batch_id) {
            None => {
                return Err(RegistryError::BatchNotFound);
            },
            Some(bi) => bi,
        };
        if self.batches[bi].expires_at <= now {
            return Err(RegistryError::BatchNotFound);
        }
        let ghost b = pre.batches[bi as int];
        let meta = match self.regions.meta_get(wasm_id) {
            None => {
                return Err(RegistryError::MetadataNotFound);
            },
            Some(bytes) => {
                match decode_metadata(&bytes) {
                    Some(m) => m,
                    None => {
                        // Well-formed stores only hold decodable records.
                        proof {
                            assert(false);
                        }
                        return Err(RegistryError::MetadataNotFound);
                    },
                }
            },
        };
        proof {
            assert(pre.metadata.dom().contains(wasm_id@));
            assert(meta@ == pre.metadata[wasm_id@]);
        }

        // Walk the chunks in upload order: check their shape and accumulate
        // the object's bytes.
        let n = self.batches[bi].chunk_ids.len();
        let ghost ids = b.chunk_ids;
        let ghost ps = payloads(pre.chunks, ids);
        proof {
            assert(pre.batches[bi as int].chunk_ids.len() * CHUNK_SIZE <= MAX_WASM_SIZE);
            // Spelling the constants out turns the size bound into linear
            // arithmetic, which yields the chunk-count bound.
            assert(CHUNK_SIZE == 512000);
            assert(MAX_WASM_SIZE == 1024000);
            assert(n <= 2);
            assert(ps.take(0) =~= Seq::<Seq<u8>>::empty());
        }
        let mut has_bad = false;
        let mut data: Vec<u8> = Vec::new();
        let mut j: usize = 0;
        while j < n
            invariant
                j <= n,
                self@ == pre,
                self.wf(),
                0 <= bi < pre.batches.len(),
                pre.batches[bi as int] == b,
                ids == b.chunk_ids,
                ps == payloads(pre.chunks, ids),
                n == ids.len(),
                n * CHUNK_SIZE <= MAX_WASM_SIZE,
                data@ == concat_payloads(ps.take(j as int)),
                has_bad == !((forall|t: int|
                    0 <= t < j ==> find_chunk(pre.chunks, ids[t]) is Some) && (forall|t: int|
                    0 <= t < j && t + 1 < n ==> #[trigger] ps[t].len() == CHUNK_SIZE) && (
                forall|t: int| 0 <= t < j && t + 1 == n ==> #[trigger] ps[t].len() > 0)),
            decreases n - j,
        {
            let cid = self.batches[bi].chunk_ids[j];
            proof {
                assert(ids[j as int] == cid);
            }
            match find_chunk_ref(&self.chunks, cid) {
                None => {
                    has_bad = true;
                    proof {
                        assert(ps[j as int] =~= Seq::<u8>::empty());
                        assert(ps.take(j + 1).drop_last() =~= ps.take(j as int));
                        assert(data@ =~= concat_payloads(ps.take(j + 1)));
                    }
                },
                Some(ci) => {
                    let clen = self.chunks[ci].content.len();
                    if clen < CHUNK_SIZE && j + 1 < n {
                        has_bad = true;
                    }
                    if clen == 0 && j + 1 == n {
                        // An empty final chunk would break the durable
                        // record shape.
                        has_bad = true;
                    }
                    let mut piece = self.chunks[ci].content.clone();
                    proof {
                        assert(piece@ =~= self.chunks@[ci as int]@.content);
                        assert(pre.chunks[ci as int] == self.chunks@[ci as int]@);
                        assert(ps[j as int] == piece@);
                        assert(pre.chunks[ci as int].content.len() <= CHUNK_SIZE);
                    }
                    data.append(&mut piece);
                    proof {
                        assert(ps.take(j + 1).drop_last() =~= ps.take(j as int));
                        assert(ps.take(j + 1).last() == ps[j as int]);
                        assert(data@ =~= concat_payloads(ps.take(j + 1)));
                    }
                },
            }
            j = j + 1;
        }
        proof {
            assert(ps.take(n as int) =~= ps);
            assert(data@ == concat_payloads(ps));
            assert(n > 0 ==> ps.last() == ps[n - 1]);
            assert(!has_bad <==> (chunks_present(pre.chunks, ids) && structural_ok(ps)));
        }

        let digest = sha256(&data);
        let length_ok = data.len() as u64 == meta.total_length;
        let digest_ok = digest_eq(&digest, &meta.sha256);

        if has_bad {
            self.discard_batch_entries(batch_id);
            proof {
                crate::model::lemma_discard_wf(pre, batch_id);
                assert(self@ =~~= spec_commit(pre, wasm_id@, batch_id, now).0);
            }
            return Err(RegistryError::BadChunks);
        }
        if !length_ok || !digest_ok {
            self.discard_batch_entries(batch_id);
            proof {
                crate::model::lemma_discard_wf(pre, batch_id);
                assert(self@ =~~= spec_commit(pre, wasm_id@, batch_id, now).0);
            }
            return Err(RegistryError::IntegrityMismatch);
        }

        // Migrate the validated chunks into durable records 0..n-1.
        proof {
            assert(self@.objects =~= crate::model::partial_commit_objects(
                pre.objects,
                wasm_id@,
                ps,
                0,
            ));
        }
        let mut widx: usize = 0;
        while widx < n
            invariant
                widx <= n,
                self@.batches == pre.batches,
                self@.chunks == pre.chunks,
                self@.next_batch_id == pre.next_batch_id,
                self@.next_chunk_id == pre.next_chunk_id,
                self@.metadata == pre.metadata,
                self@.authorized == pre.authorized,
                self@.objects == crate::model::partial_commit_objects(
                    pre.objects,
                    wasm_id@,
                    ps,
                    widx as int,
                ),
                forall|k: Seq<char>|
                    #[trigger] stored_metadata(self.regions).dom().contains(k)
                        ==> spec_decode_metadata(stored_metadata(self.regions)[k]) is Some,
                forall|k: Seq<u8>|
                    #[trigger] stored_chunks(self.regions).dom().contains(k) ==> spec_decode_chunk(
                        stored_chunks(self.regions)[k],
                    ) is Some,
                pre.wf(),
                0 <= bi < pre.batches.len(),
                pre.batches[bi as int] == b,
                ids == b.chunk_ids,
                ps == payloads(pre.chunks, ids),
                n == ids.len(),
                n * CHUNK_SIZE <= MAX_WASM_SIZE,
                n <= 2,
                chunks_present(pre.chunks, ids),
                batches_view(self.batches@) == pre.batches,
                chunks_view(self.chunks@) == pre.chunks,
            decreases n - widx,
        {
            let cid = self.batches[bi].chunk_ids[widx];
            proof {
                assert(ids[widx as int] == cid);
                assert(find_chunk(pre.chunks, cid) is Some);
            }
            let ci = match find_chunk_ref(&self.chunks, cid) {
                Some(ci) => ci,
                None => {
                    // All chunk ids were just checked to resolve.
                    proof {
                        assert(false);
                    }
                    return Err(RegistryError::BadChunks);
                },
            };
            proof {
                assert(pre.chunks[ci as int] == self.chunks@[ci as int]@);
                assert(ps[widx as int] == self.chunks@[ci as int]@.content);
                assert(pre.chunks[ci as int].content.len() <= CHUNK_SIZE);
            }
            let padded = pad_content(&self.chunks[ci].content);
            let rec = WasmAssetChunk { content: padded, length: self.chunks[ci].content.len() };
            proof {
                assert(n <= 2);
                assert(widx as u32 == widx);
                assert(rec@.content =~= spec_padded(ps[widx as int]));
                assert(rec@.length == ps[widx as int].len());
                assert(rec@.wf());
            }
            let enc = encode_chunk(&rec);
            let key = encode_chunk_key(wasm_id, widx as u32);
            proof {
                crate::codec::lemma_chunk_roundtrip(rec@);
                lemma_decoded_objects_insert(
                    stored_chunks(self.regions),
                    wasm_id@,
                    widx as u32,
                    enc@,
                );
            }
            self.regions.chunk_insert(key, enc);
            proof {
                assert(self@.objects =~= crate::model::partial_commit_objects(
                    pre.objects,
                    wasm_id@,
                    ps,
                    widx + 1,
                ));
            }
            widx = widx + 1;
        }

        // Probe away the stale tail of a previous, larger version.
        proof {
            assert(self@.objects =~= crate::model::probe_objects(
                pre.objects,
                wasm_id@,
                ps,
                n as int,
            ));
        }
        let mut t: u32 = n as u32;
        loop
            invariant_except_break
                n <= t,
                t <= 2,
                self@.batches == pre.batches,
                self@.chunks == pre.chunks,
                self@.next_batch_id == pre.next_batch_id,
                self@.next_chunk_id == pre.next_chunk_id,
                self@.metadata == pre.metadata,
                self@.authorized == pre.authorized,
                self@.objects == crate::model::probe_objects(
                    pre.objects,
                    wasm_id@,
                    ps,
                    t as int,
                ),
                forall|k: Seq<char>|
                    #[trigger] stored_metadata(self.regions).dom().contains(k)
                        ==> spec_decode_metadata(stored_metadata(self.regions)[k]) is Some,
                forall|k: Seq<u8>|
                    #[trigger] stored_chunks(self.regions).dom().contains(k) ==> spec_decode_chunk(
                        stored_chunks(self.regions)[k],
                    ) is Some,
                pre.wf(),
                n == ps.len(),
                batches_view(self.batches@) == pre.batches,
                chunks_view(self.chunks@) == pre.chunks,
            ensures
                self@.batches == pre.batches,
                self@.chunks == pre.chunks,
                self@.next_batch_id == pre.next_batch_id,
                self@.next_chunk_id == pre.next_chunk_id,
                self@.metadata == pre.metadata,
                self@.authorized == pre.authorized,
                self@.objects == commit_objects(pre.objects, wasm_id@, ps),
                forall|k: Seq<char>|
                    #[trigger] stored_metadata(self.regions).dom().contains(k)
                        ==> spec_decode_metadata(stored_metadata(self.regions)[k]) is Some,
                forall|k: Seq<u8>|
                    #[trigger] stored_chunks(self.regions).dom().contains(k) ==> spec_decode_chunk(
                        stored_chunks(self.regions)[k],
                    ) is Some,
                batches_view(self.batches@) == pre.batches,
                chunks_view(self.chunks@) == pre.chunks,
            decreases 3 - t,
        {
            let key = encode_chunk_key(wasm_id, t);
            if self.regions.chunk_contains(&key) {
                proof {
                    // A present stale record bounds the probe index.
                    assert(self@.objects.dom().contains((wasm_id@, t)));
                    assert(pre.objects.dom().contains((wasm_id@, t)));
                    assert((t + 1) * CHUNK_SIZE <= MAX_WASM_SIZE);
                    // Spelled-out constants make the bound linear.
                    assert(CHUNK_SIZE == 512000);
                    assert(MAX_WASM_SIZE == 1024000);
                    assert(t <= 1);
                    lemma_decoded_objects_remove(stored_chunks(self.regions), wasm_id@, t);
                }
                self.regions.chunk_remove(&key);
                proof {
                    assert(self@.objects =~= crate::model::probe_objects(
                        pre.objects,
                        wasm_id@,
                        ps,
                        t + 1,
                    ));
                }
                t = t + 1;
            } else {
                proof {
                    assert(!self@.objects.dom().contains((wasm_id@, t)));
                    assert(!pre.objects.dom().contains((wasm_id@, t)));
                    crate::model::lemma_probe_complete(pre.objects, wasm_id@, ps, t);
                }
                break;
            }
        }

        // Clean up the staging area.
        self.discard_batch_entries(batch_id);
        proof {
            self.lemma_commit_success_ok(pre, wasm_id@, batch_id, now, b, ps, data@);
        }
        Ok(())
    }

    /// A completed migration preserves well-formedness and lands on the
    /// specified state.
    proof fn lemma_commit_success_ok(
        self,
        pre: StateView,
        wasm_id: Seq<char>,
        batch_id: u64,
        now: u64,
        b: BatchV,
        ps: Seq<Seq<u8>>,
        data: Seq<u8>,
    )
        requires
            pre.wf(),
            find_batch(pre.batches, batch_id) == Some(b),
            b.expires_at > now,
            pre.metadata.dom().contains(wasm_id),
            ps == payloads(pre.chunks, b.chunk_ids),
            chunks_present(pre.chunks, b.chunk_ids),
            structural_ok(ps),
            data == concat_payloads(ps),
            data.len() == pre.metadata[wasm_id].total_length,
            crate::digest::sha256_of(data) == pre.metadata[wasm_id].sha256,
            self@.batches == drop_batch(pre.batches, batch_id),
            self@.chunks == drop_chunks_of(pre.chunks, batch_id),
            self@.next_batch_id == pre.next_batch_id,
            self@.next_chunk_id == pre.next_chunk_id,
            self@.metadata == pre.metadata,
            self@.authorized == pre.authorized,
            self@.objects == commit_objects(pre.objects, wasm_id, ps),
            forall|k: Seq<char>|
                #[trigger] stored_metadata(self.regions).dom().contains(k)
                    ==> spec_decode_metadata(stored_metadata(self.regions)[k]) is Some,
            forall|k: Seq<u8>|
                #[trigger] stored_chunks(self.regions).dom().contains(k) ==> spec_decode_chunk(
                    stored_chunks(self.regions)[k],
                ) is Some,
        ensures
            self.wf(),
            self@ == spec_commit(pre, wasm_id, batch_id, now).0,
            spec_commit(pre, wasm_id, batch_id, now).1 == Ok::<(), RegistryError>(()),
    {
        let s2 = self@;
        let n = ps.len() as int;
        // Spelled-out constants make the size bounds linear.
        assert(CHUNK_SIZE == 512000);
        assert(MAX_WASM_SIZE == 1024000);
        crate::model::lemma_discard_wf(pre, batch_id);
        let ds = discard_batch(pre, batch_id);
        assert(s2 =~~= StateView { objects: commit_objects(pre.objects, wasm_id, ps), ..ds });

        // The committed batch is an entry of the staged list, so its bounds
        // apply to the record count.
        crate::model::lemma_find_batch_characterize(pre.batches, batch_id);
        assert(!(forall|i: int|
            0 <= i < pre.batches.len() ==> (#[trigger] pre.batches[i]).id != batch_id));
        let w = choose|w: int|
            0 <= w < pre.batches.len() && (#[trigger] pre.batches[w]).id == batch_id;
        assert(pre.batches[w] == b);
        assert(b.chunk_ids.len() * CHUNK_SIZE <= MAX_WASM_SIZE);

        // Every payload fits a chunk record.
        assert forall|j: int| 0 <= j < n implies (#[trigger] ps[j]).len() <= CHUNK_SIZE by {
            let found = find_chunk(pre.chunks, b.chunk_ids[j]);
            assert(found is Some);
            crate::model::lemma_find_chunk_characterize(pre.chunks, b.chunk_ids[j]);
            assert(!(forall|i: int|
                0 <= i < pre.chunks.len() ==> (#[trigger] pre.chunks[i]).id != b.chunk_ids[j]));
            let v = choose|v: int|
                0 <= v < pre.chunks.len() && (#[trigger] pre.chunks[v]).id == b.chunk_ids[j];
            assert(found == Some(pre.chunks[v]));
            assert(pre.chunks[v].content.len() <= CHUNK_SIZE);
        }

        // Well-formedness of the new durable table.
        assert forall|k: (Seq<char>, u32)| s2.objects.dom().contains(k) implies (
        #[trigger] s2.objects[k]).wf() && (k.1 + 1) * CHUNK_SIZE <= MAX_WASM_SIZE by {
            if k.0 == wasm_id {
                assert(0 <= k.1 < n);
                assert(ps[k.1 as int].len() <= CHUNK_SIZE);
                assert(spec_padded(ps[k.1 as int]).len() == CHUNK_SIZE);
                assert(k.1 + 1 <= n);
            } else {
                assert(pre.objects.dom().contains(k));
            }
        }
        assert forall|k: (Seq<char>, u32)|
            #[trigger] s2.objects.dom().contains(k) && k.1 > 0 implies s2.objects.dom().contains(
            (k.0, (k.1 - 1) as u32),
        ) by {
            if k.0 == wasm_id {
            } else {
                assert(pre.objects.dom().contains(k));
            }
        }
        assert(s2.wf());
        assert(s2 =~~= spec_commit(pre, wasm_id, batch_id, now).0);
    }
}

/// Ghost image of an operation list.
pub open spec fn ops_view(v: Seq<crate::types::BatchOperation>) -> Seq<crate::model::OpV> {
    Seq::new(v.len(), |i: int| v[i]@)
}

impl Registry {
    /// Runs a batched commit call: executes the operations in order
    /// (declaring metadata and committing content; the other operations are
    /// accepted and skipped), stopping at the first failure; on success the
    /// named batch and its staged chunks are destroyed.
    pub fn commit_batch(&mut self, arg: CommitBatchArguments, now: u64) -> (r: Result<
        (),
        RegistryError,
    >)
        requires
            old(self).wf(),
        ensures
            final(self).wf(),
            final(self)@ == crate::model::spec_commit_batch(
                old(self)@,
                arg.batch_id,
                ops_view(arg.operations@),
                now,
            ).0,
            r == crate::model::spec_commit_batch(
                old(self)@,
                arg.batch_id,
                ops_view(arg.operations@),
                now,
            ).1,
    {
        let ghost pre = self@;
        let ghost ops0 = ops_view(arg.operations@);
        let batch_id = arg.batch_id;
        let mut ops = arg.operations;
        while ops.len() > 0
            invariant
                self.wf(),
                pre == old(self)@,
                ops0 == ops_view(arg.operations@),
                batch_id == arg.batch_id,
                crate::model::spec_run_ops(pre, ops0, now) == crate::model::spec_run_ops(
                    self@,
                    ops_view(ops@),
                    now,
                ),
            decreases ops@.len(),
        {
            let ghost rem0 = ops_view(ops@);
            let ghost st = self@;
            let op = ops.remove(0);
            proof {
                assert(op@ == rem0[0]);
                assert(ops_view(ops@) =~= rem0.drop_first());
            }
            match op {
                BatchOperation::CreateAsset(a) => {
                    self.do_create_asset(a.wasm_id, a.total_length, a.sha256, now);
                    proof {
                        assert(crate::model::spec_apply_op(st, rem0[0], now) == (self@, Ok::<
                            (),
                            RegistryError,
                        >(())));
                    }
                },
                BatchOperation::SetAssetContent(a) => {
                    match self.do_set_asset_content(&a.wasm_id, a.batch_id, now) {
                        Ok(()) => {
                            proof {
                                assert(crate::model::spec_apply_op(st, rem0[0], now) == (
                                self@,
                                Ok::<(), RegistryError>(()),
                                ));
                            }
                        },
                        Err(e) => {
                            proof {
                                assert(crate::model::spec_apply_op(st, rem0[0], now) == (
                                self@,
                                Err::<(), RegistryError>(e),
                                ));
                                assert(crate::model::spec_run_ops(pre, ops0, now) == (
                                self@,
                                Err::<(), RegistryError>(e),
                                ));
                            }
                            return Err(e);
                        },
                    }
                },
                BatchOperation::UnsetAssetContent(_) => {
                    // Not an active operation; accepted and skipped.
                },
                BatchOperation::DeleteAsset(_) => {
                    // Not an active operation; accepted and skipped.
                },
                BatchOperation::Clear(_) => {
                    do_clear();
                },
            }
        }
        proof {
            assert(ops_view(ops@) =~= Seq::<crate::model::OpV>::empty());
            assert(crate::model::spec_run_ops(pre, ops0, now) == (self@, Ok::<
                (),
                RegistryError,
            >(())));
        }
        let ghost before_discard = self@;
        self.discard_batch_entries(batch_id);
        proof {
            crate::model::lemma_discard_wf(before_discard, batch_id);
            assert(self@ =~~= crate::model::spec_commit_batch(pre, batch_id, ops0, now).0);
        }
        Ok(())
    }
}

/// Compares two byte strings.
pub fn bytes_eq(a: &Vec<u8>, b: &Vec<u8>) -> (r: bool)
    ensures
        r == (a@ == b@),
{
    if a.len() != b.len() {
        return false;
    }
    let mut i: usize = 0;
    while i < a.len()
        invariant
            i <= a.len(),
            a@.len() == b@.len(),
            forall|j: int| 0 <= j < i ==> a@[j] == b@[j],
        decreases a.len() - i,
    {
        if a[i] != b[i] {
            return false;
        }
        i = i + 1;
    }
    proof {
        assert(a@ =~= b@);
    }
    true
}

/// Compares two 32-byte digests.
pub fn digest_eq(a: &[u8; 32], b: &[u8; 32]) -> (r: bool)
    ensures
        r == (a@ == b@),
{
    let mut i: usize = 0;
    while i < 32
        invariant
            i <= 32,
            forall|j: int| 0 <= j < i ==> a@[j] == b@[j],
        decreases 32 - i,
    {
        if a[i] != b[i] {
            return false;
        }
        i = i + 1;
    }
    proof {
        assert(a@ =~= b@);
    }
    true
}

/// Finds the position of the batch with the given id.
fn find_batch_ref(batches: &Vec<BatchEntry>, id: u64) -> (r: Option<usize>)
    ensures
        r matches Some(i) ==> i < batches.len() && batches@[i as int]@.id == id && find_batch(
            batches_view(batches@),
            id,
        ) == Some(batches@[i as int]@),
        r is None ==> find_batch(batches_view(batches@), id) is None,
{
    let mut i: usize = 0;
    while i < batches.len()
        invariant
            i <= batches.len(),
            forall|j: int| 0 <= j < i ==> batches_view(batches@)[j].id != id,
        decreases batches.len() - i,
    {
        if batches[i].id == id {
            proof {
                crate::model::lemma_find_batch_first(batches_view(batches@), id, i as int);
            }
            return Some(i);
        }
        i = i + 1;
    }
    proof {
        crate::model::lemma_find_batch_absent(batches_view(batches@), id);
    }
    None
}

/// Finds the position of the staged chunk with the given id.
fn find_chunk_ref(chunks: &Vec<ChunkEntry>, id: u64) -> (r: Option<usize>)
    ensures
        r matches Some(i) ==> i < chunks.len() && chunks@[i as int]@.id == id && find_chunk(
            chunks_view(chunks@),
            id,
        ) == Some(chunks@[i as int]@),
        r is None ==> find_chunk(chunks_view(chunks@), id) is None,
{
    let mut i: usize = 0;
    while i < chunks.len()
        invariant
            i <= chunks.len(),
            forall|j: int| 0 <= j < i ==> chunks_view(chunks@)[j].id != id,
        decreases chunks.len() - i,
    {
        if chunks[i].id == id {
            proof {
                crate::model::lemma_find_chunk_first(chunks_view(chunks@), id, i as int);
            }
            return Some(i);
        }
        i = i + 1;
    }
    proof {
        crate::model::lemma_find_chunk_absent(chunks_view(chunks@), id);
    }
    None
}

} // verus!
