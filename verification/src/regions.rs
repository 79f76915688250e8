//! Durable storage regions.
//!
//! One stable-memory arena is split by `ic_stable_structures`'s memory
//! manager into three version-tagged regions, one per logical collection:
//! the metadata table, the chunk table, and the authorized-principal list.
//! The region ids carry the storage-schema revision, so a future layout
//! change takes fresh regions instead of reinterpreting old bytes.
//!
//! The collections themselves belong to the outside crate; they are held in
//! a single opaque struct, their contents are named by three uninterpreted
//! functions, and each method the registry needs is wrapped in a trusted
//! function whose contract states what the outside crate's source shows.

use vstd::prelude::*;

use ic_stable_structures::memory_manager::{MemoryId, MemoryManager, VirtualMemory};
use ic_stable_structures::storable::Blob;
use ic_stable_structures::{BTreeMap, DefaultMemoryImpl};

verus! {

/// The three durable collections, opaque to verification; all facts about
/// them go through `stored_metadata`, `stored_chunks` and
/// `stored_principals`.
#[verifier::external_body]
pub struct StableRegions {
    metadata: BTreeMap<String, std::vec::Vec<u8>, VirtualMemory<DefaultMemoryImpl>>,
    chunks: BTreeMap<std::vec::Vec<u8>, std::vec::Vec<u8>, VirtualMemory<DefaultMemoryImpl>>,
    authorized: ic_stable_structures::Vec<Blob<29>, VirtualMemory<DefaultMemoryImpl>>,
}

/// Contents of the metadata region: encoded metadata record by object id.
pub uninterp spec fn stored_metadata(r: StableRegions) -> Map<Seq<char>, Seq<u8>>;

/// Contents of the chunk region: encoded chunk record by encoded chunk key.
pub uninterp spec fn stored_chunks(r: StableRegions) -> Map<Seq<u8>, Seq<u8>>;

/// Contents of the principal region: principal bytes in insertion order.
pub uninterp spec fn stored_principals(r: StableRegions) -> Seq<Seq<u8>>;

impl StableRegions {
    /// Whether all three regions hold nothing.
    pub open spec fn is_empty(self) -> bool {
        &&& stored_metadata(self) == Map::<Seq<char>, Seq<u8>>::empty()
        &&& stored_chunks(self) == Map::<Seq<u8>, Seq<u8>>::empty()
        &&& stored_principals(self) == Seq::<Seq<u8>>::empty()
    }

    /// Relies on `MemoryManager::init` handing out independent regions and
    /// on `BTreeMap::new` / `Vec::new` building empty collections in them,
    /// overwriting whatever the memory held.
    #[verifier::external_body]
    pub(crate) fn new() -> (r: StableRegions)
        ensures
            r.is_empty(),
    {
        let manager = MemoryManager::init(DefaultMemoryImpl::default());
        StableRegions {
            authorized: ic_stable_structures::Vec::new(manager.get(MemoryId::new(0))),
            metadata: BTreeMap::new(manager.get(MemoryId::new(1))),
            chunks: BTreeMap::new(manager.get(MemoryId::new(2))),
        }
    }

    /// Relies on `BTreeMap::insert`: maps the key to the value, replacing
    /// any previous value; no other region is touched.
    #[verifier::external_body]
    pub(crate) fn meta_insert(&mut self, key: String, value: Vec<u8>)
        ensures
            stored_metadata(*final(self)) == stored_metadata(*old(self)).insert(key@, value@),
            stored_chunks(*final(self)) == stored_chunks(*old(self)),
            stored_principals(*final(self)) == stored_principals(*old(self)),
    {
        self.metadata.insert(key, value);
    }

    /// Relies on `BTreeMap::get`: returns the value stored under the key,
    /// if any.
    #[verifier::external_body]
    pub(crate) fn meta_get(&self, key: &String) -> (r: Option<Vec<u8>>)
        ensures
            r matches Some(v) ==> stored_metadata(*self).dom().contains(key@) && v@
                == stored_metadata(*self)[key@],
            r is None ==> !stored_metadata(*self).dom().contains(key@),
    {
        self.metadata.get(key)
    }

    /// Relies on `BTreeMap::insert`: maps the key to the value, replacing
    /// any previous value; no other region is touched.
    #[verifier::external_body]
    pub(crate) fn chunk_insert(&mut self, key: Vec<u8>, value: Vec<u8>)
        ensures
            stored_chunks(*final(self)) == stored_chunks(*old(self)).insert(key@, value@),
            stored_metadata(*final(self)) == stored_metadata(*old(self)),
            stored_principals(*final(self)) == stored_principals(*old(self)),
    {
        self.chunks.insert(key, value);
    }

    /// Relies on `BTreeMap::get`: returns the value stored under the key,
    /// if any.
    #[verifier::external_body]
    pub(crate) fn chunk_get(&self, key: &Vec<u8>) -> (r: Option<Vec<u8>>)
        ensures
            r matches Some(v) ==> stored_chunks(*self).dom().contains(key@) && v@
                == stored_chunks(*self)[key@],
            r is None ==> !stored_chunks(*self).dom().contains(key@),
    {
        self.chunks.get(key)
    }

    /// Relies on `BTreeMap::contains_key`.
    #[verifier::external_body]
    pub(crate) fn chunk_contains(&self, key: &Vec<u8>) -> (r: bool)
        ensures
            r == stored_chunks(*self).dom().contains(key@),
    {
        self.chunks.contains_key(key)
    }

    /// Relies on `BTreeMap::remove`: deletes the key's entry if present; no
    /// other region is touched.
    #[verifier::external_body]
    pub(crate) fn chunk_remove(&mut self, key: &Vec<u8>)
        ensures
            stored_chunks(*final(self)) == stored_chunks(*old(self)).remove(key@),
            stored_metadata(*final(self)) == stored_metadata(*old(self)),
            stored_principals(*final(self)) == stored_principals(*old(self)),
    {
        self.chunks.remove(key);
    }

    /// Relies on `Vec::len` of the outside crate.
    #[verifier::external_body]
    pub(crate) fn auth_len(&self) -> (r: u64)
        ensures
            r == stored_principals(*self).len(),
    {
        self.authorized.len()
    }

    /// Relies on `Vec::get` of the outside crate: the item at the index, if
    /// in bounds; `Blob` hands back exactly the bytes that were pushed.
    #[verifier::external_body]
    pub(crate) fn auth_get(&self, i: u64) -> (r: Option<Vec<u8>>)
        ensures
            r matches Some(p) ==> i < stored_principals(*self).len() && p@
                == stored_principals(*self)[i as int],
            r is None ==> i >= stored_principals(*self).len(),
    {
        self.authorized.get(i).map(|b| b.as_slice().to_vec())
    }

    /// Relies on `Vec::push` of the outside crate: appends the item at the
    /// end; no other region is touched.  `Blob::try_from` cannot fail here
    /// because the principal fits its 29-byte capacity.
    #[verifier::external_body]
    pub(crate) fn auth_push(&mut self, p: &Vec<u8>)
        requires
            p@.len() <= 29,
        ensures
            stored_principals(*final(self)) == stored_principals(*old(self)).push(p@),
            stored_metadata(*final(self)) == stored_metadata(*old(self)),
            stored_chunks(*final(self)) == stored_chunks(*old(self)),
    {
        let blob = Blob::<29>::try_from(p.as_slice()).unwrap();
        self.authorized.push(&blob);
    }
}

} // verus!
