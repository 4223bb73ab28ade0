//! The content-addressed object store.
//!
//! The store is one flat pool of entries named by object hash. An
//! entry holds either a blob's raw bytes or the trimmed text of a tree
//! listing; the two share the key space and only the caller's context
//! tells them apart. An entry, once written, is never rewritten: the
//! hash is a pure content key, so a second write under the same hash
//! is a no-op whatever bytes it carries.
//!
//! This type is the verified index of the pool. The unverified shell
//! mirrors every operation one to one on the store directory (an entry
//! is a file named by the hash, made read-only once written) and keeps
//! no other state, so the contracts here describe the on-disk pool as
//! well.

use vstd::prelude::*;

use crate::text::{bytes_eq, clone_bytes};

verus! {

/// One store entry: a hash and the bytes it names.
#[derive(Debug)]
struct StoreEntry {
    hash: Vec<u8>,
    data: Vec<u8>,
}

/// The map a sequence of entries denotes: the earliest entry for a
/// hash wins, matching a pool where an existing entry is never
/// replaced.
spec fn entries_map(es: Seq<StoreEntry>) -> Map<Seq<u8>, Seq<u8>>
    decreases es.len(),
{
    if es.len() == 0 {
        Map::empty()
    } else {
        entries_map(es.skip(1)).insert(es[0].hash@, es[0].data@)
    }
}

/// What one write-once operation does to the store's contents.
pub open spec fn store_write(m: Map<Seq<u8>, Seq<u8>>, hash: Seq<u8>, bytes: Seq<u8>) -> Map<
    Seq<u8>,
    Seq<u8>,
> {
    if m.contains_key(hash) {
        m
    } else {
        m.insert(hash, bytes)
    }
}

proof fn lemma_entries_map_domain(es: Seq<StoreEntry>, k: Seq<u8>)
    ensures
        entries_map(es).contains_key(k) <==> exists|j: int|
            0 <= j < es.len() && (#[trigger] es[j].hash)@ == k,
    decreases es.len(),
{
    if es.len() > 0 {
        lemma_entries_map_domain(es.skip(1), k);
        if entries_map(es).contains_key(k) {
            if es[0].hash@ != k {
                let j = choose|j: int| 0 <= j < es.skip(1).len() && (#[trigger] es.skip(
                    1,
                )[j].hash)@ == k;
                assert(es[j + 1].hash@ == k);
            }
        }
        if exists|j: int| 0 <= j < es.len() && (#[trigger] es[j].hash)@ == k {
            let j = choose|j: int| 0 <= j < es.len() && (#[trigger] es[j].hash)@ == k;
            if j > 0 {
                assert(es.skip(1)[j - 1].hash@ == k);
            }
        }
    }
}

proof fn lemma_entries_map_first(es: Seq<StoreEntry>, i: int)
    requires
        0 <= i < es.len(),
        forall|j: int| 0 <= j < i ==> (#[trigger] es[j].hash)@ != es[i].hash@,
    ensures
        entries_map(es).contains_key(es[i].hash@),
        entries_map(es)[es[i].hash@] == es[i].data@,
    decreases es.len(),
{
    if i > 0 {
        assert(forall|j: int|
            0 <= j < i - 1 ==> (#[trigger] es.skip(1)[j].hash)@ == es[j + 1].hash@);
        lemma_entries_map_first(es.skip(1), i - 1);
        assert(es.skip(1)[i - 1] == es[i]);
    }
}

proof fn lemma_entries_map_push(es: Seq<StoreEntry>, e: StoreEntry)
    requires
        !entries_map(es).contains_key(e.hash@),
    ensures
        entries_map(es.push(e)) == entries_map(es).insert(e.hash@, e.data@),
    decreases es.len(),
{
    lemma_entries_map_domain(es, e.hash@);
    if es.len() == 0 {
        assert(es.push(e).skip(1) =~= es);
        assert(es.push(e)[0] == e);
    } else {
        assert(es.push(e)[0] == es[0]);
        assert(es.push(e).skip(1) =~= es.skip(1).push(e));
        lemma_entries_map_domain(es.skip(1), e.hash@);
        lemma_entries_map_push(es.skip(1), e);
        assert(entries_map(es.skip(1)).insert(e.hash@, e.data@).insert(es[0].hash@, es[0].data@)
            =~= entries_map(es.skip(1)).insert(es[0].hash@, es[0].data@).insert(
            e.hash@,
            e.data@,
        ));
    }
}

/// The verified store index: hash-named entries, written once.
#[derive(Debug)]
pub struct ObjectStore {
    entries: Vec<StoreEntry>,
}

impl View for ObjectStore {
    type V = Map<Seq<u8>, Seq<u8>>;

    closed spec fn view(&self) -> Map<Seq<u8>, Seq<u8>> {
        entries_map(self.entries@)
    }
}

impl ObjectStore {
    /// An empty store.
    pub fn new() -> (s: ObjectStore)
        ensures
            s@ == Map::<Seq<u8>, Seq<u8>>::empty(),
    {
        ObjectStore { entries: Vec::new() }
    }

    /// True iff an entry named `hash` exists. Existence is the only
    /// check; content is never validated against the hash.
    pub fn has(&self, hash: &Vec<u8>) -> (r: bool)
        ensures
            r == self@.contains_key(hash@),
    {
        let mut i: usize = 0;
        while i < self.entries.len()
            invariant
                i <= self.entries@.len(),
                forall|j: int| 0 <= j < i ==> (#[trigger] self.entries@[j].hash)@ != hash@,
            decreases self.entries@.len() - i,
        {
            if bytes_eq(&self.entries[i].hash, hash) {
                proof {
                    lemma_entries_map_domain(self.entries@, hash@);
                }
                return true;
            }
            i = i + 1;
        }
        proof {
            lemma_entries_map_domain(self.entries@, hash@);
        }
        false
    }

    /// True iff materializing `hash` still needs the backend: the one
    /// decision behind the cache fast path. Once a hash is present,
    /// nothing is fetched for it again.
    pub fn needs_backend_bytes(&self, hash: &Vec<u8>) -> (r: bool)
        ensures
            r == !self@.contains_key(hash@),
    {
        !self.has(hash)
    }

    /// Install `bytes` under `hash` — unless the store already holds
    /// that hash, in which case nothing changes. The on-disk twin of
    /// this operation also applies the entry's permission bits and
    /// marks the file read-only.
    pub fn write_blob_once(&mut self, hash: &Vec<u8>, bytes: &Vec<u8>)
        ensures
            final(self)@ == store_write(old(self)@, hash@, bytes@),
    {
        if self.has(hash) {
            return;
        }
        let entry = StoreEntry { hash: clone_bytes(hash), data: clone_bytes(bytes) };
        let ghost pre = self.entries@;
        proof {
            assert(entry.hash@ == hash@);
        }
        self.entries.push(entry);
        proof {
            lemma_entries_map_push(pre, entry);
        }
    }

    /// Install a tree listing's trimmed text under its hash, write
    /// once. Listings and blobs share one key space; the caller's
    /// context tells them apart.
    pub fn write_tree_text_once(&mut self, hash: &Vec<u8>, text: &Vec<u8>)
        ensures
            final(self)@ == store_write(old(self)@, hash@, text@),
    {
        self.write_blob_once(hash, text)
    }

    /// The cached tree text under `hash`, if present. A hit means the
    /// listing needs no backend call.
    pub fn read_tree_text(&self, hash: &Vec<u8>) -> (r: Option<Vec<u8>>)
        ensures
            match r {
                Some(t) => self@.contains_key(hash@) && t@ == self@[hash@],
                None => !self@.contains_key(hash@),
            },
    {
        let mut i: usize = 0;
        while i < self.entries.len()
            invariant
                i <= self.entries@.len(),
                forall|j: int| 0 <= j < i ==> (#[trigger] self.entries@[j].hash)@ != hash@,
            decreases self.entries@.len() - i,
        {
            if bytes_eq(&self.entries[i].hash, hash) {
                proof {
                    lemma_entries_map_first(self.entries@, i as int);
                }
                return Some(clone_bytes(&self.entries[i].data));
            }
            i = i + 1;
        }
        proof {
            lemma_entries_map_domain(self.entries@, hash@);
        }
        None
    }
}

/// Write-once: a second write under the same hash, whatever bytes it
/// carries, changes nothing — the first write's content stays intact.
pub proof fn lemma_write_once(m: Map<Seq<u8>, Seq<u8>>, hash: Seq<u8>, b1: Seq<u8>, b2: Seq<u8>)
    ensures
        store_write(store_write(m, hash, b1), hash, b2) == store_write(m, hash, b1),
        store_write(m, hash, b1)[hash] == if m.contains_key(hash) {
            m[hash]
        } else {
            b1
        },
{
}

/// Cache bypass: a hash already present makes every further write for
/// it a no-op, so nothing needs to be fetched for it.
pub proof fn lemma_cache_bypass(m: Map<Seq<u8>, Seq<u8>>, hash: Seq<u8>, bytes: Seq<u8>)
    requires
        m.contains_key(hash),
    ensures
        store_write(m, hash, bytes) == m,
{
}

} // verus!
