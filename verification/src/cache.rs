//! The two-tier cache: an index from source path to the encoded bitmap, held in
//! memory or named by the number of its file on disk, and the set of batches
//! whose paths are all known to be in the index.

use std::collections::HashMap;
use std::sync::Arc;
use vstd::prelude::*;
use crate::bytes::{copy_bytes, same_bytes, share};
use crate::config::{
    disk_cache_file, disk_cache_path, get_disk_cache_path, lemma_disk_cache_path_is_injective,
    view_of, Configuration, ConfigurationView,
};
use crate::error::Error;
use crate::memory::Tier;

verus! {

broadcast use vstd::std_specs::hash::group_hash_axioms;

/// Where the encoded bitmap of one source path is kept.
#[derive(Debug)]
pub enum CacheEntry {
    /// In the file of the disk tier with this number.
    OnDisk(u32),
    /// In memory, shared with whoever is sending it.
    InMemory(Arc<Vec<u8>>),
}

/// A cache entry as plain values.
pub enum EntryView {
    OnDisk(u32),
    InMemory(Seq<u8>),
}

impl View for CacheEntry {
    type V = EntryView;

    open spec fn view(&self) -> EntryView {
        match self {
            CacheEntry::OnDisk(id) => EntryView::OnDisk(*id),
            CacheEntry::InMemory(bytes) => EntryView::InMemory(bytes@),
        }
    }
}

/// An entry of the disk tier that `clear` took out of the index.
#[derive(Debug)]
pub struct Evicted {
    /// The source path that the entry stood for.
    pub path: Vec<u8>,
    /// The number of its file.
    pub id: u32,
}

struct Slot {
    path: Vec<u8>,
    entry: CacheEntry,
}

/// The index and the set of batch fingerprints. The two change together, so
/// they live in one value, to be put behind one lock.
///
/// Every cached path has one slot. Paths and fingerprints are found through
/// hash tables that are keyed by a hash of their bytes, so that a lookup
/// compares the bytes of a few candidates only.
pub struct Cache {
    slots: Vec<Slot>,
    buckets: HashMap<u64, Vec<usize>>,
    batches: HashMap<u64, Vec<Vec<u8>>>,
}

/// The hash that byte strings are filed under: FNV-1a, in 64 bits.
spec fn hash_of(bytes: Seq<u8>) -> u64
    decreases bytes.len(),
{
    if bytes.len() == 0 {
        0xcbf2_9ce4_8422_2325
    } else {
        (((hash_of(bytes.drop_last()) ^ (bytes.last() as u64)) * 0x100_0000_01b3)
            % 0x1_0000_0000_0000_0000) as u64
    }
}

/// The hash of `bytes`.
fn path_hash(bytes: &[u8]) -> (hash: u64)
    ensures
        hash == hash_of(bytes@),
{
    let mut hash: u64 = 0xcbf2_9ce4_8422_2325;
    let mut i: usize = 0;
    while i < bytes.len()
        invariant
            i <= bytes@.len(),
            hash == hash_of(bytes@.take(i as int)),
        decreases bytes@.len() - i,
    {
        let ghost seen = bytes@.take(i + 1);
        assert(seen.drop_last() =~= bytes@.take(i as int));
        assert(seen.last() == bytes@[i as int]);
        let mixed: u64 = hash ^ (bytes[i] as u64);
        let wide: u128 = (mixed as u128) * 0x100_0000_01b3;
        hash = (wide % 0x1_0000_0000_0000_0000) as u64;
        i = i + 1;
    }
    assert(bytes@.take(bytes@.len() as int) =~= bytes@);
    hash
}

/// The paths of `slots`, in order.
spec fn paths_of(slots: Seq<Slot>) -> Seq<Seq<u8>> {
    Seq::new(slots.len(), |i: int| slots[i].path@)
}

/// Whether `buckets` file every slot under the hash of its path, and name
/// nothing but slots.
spec fn filed(slots: Seq<Slot>, buckets: Map<u64, Vec<usize>>) -> bool {
    &&& forall|i: int|
        0 <= i < slots.len() ==> buckets.contains_key(hash_of(#[trigger] paths_of(slots)[i]))
            && buckets[hash_of(paths_of(slots)[i])]@.contains(i as usize)
    &&& forall|hash: u64, j: int|
        buckets.contains_key(hash) && 0 <= j < buckets[hash]@.len() ==> (
        #[trigger] buckets[hash]@[j]) < slots.len()
}

/// Whether `batches` hold the fingerprint `key`, in the bucket of its hash.
spec fn recorded(batches: Map<u64, Vec<Vec<u8>>>, key: Seq<u8>) -> bool {
    batches.contains_key(hash_of(key)) && exists|j: int|
        0 <= j < batches[hash_of(key)]@.len() && (#[trigger] batches[hash_of(key)]@[j])@ == key
}

/// The index that `slots` stand for.
spec fn index_of_slots(slots: Seq<Slot>) -> Map<Seq<u8>, EntryView> {
    Map::new(
        |path: Seq<u8>| paths_of(slots).contains(path),
        |path: Seq<u8>| slots[paths_of(slots).index_of(path)].entry@,
    )
}

/// Putting an entry into the slot that a path has, or into a new slot at the
/// end where it has none, inserts it into the index.
proof fn lemma_slot_written(before: Seq<Slot>, after: Seq<Slot>, at: int, path: Seq<u8>)
    requires
        paths_of(before).no_duplicates(),
        0 <= at <= before.len(),
        at < before.len() ==> before[at].path@ == path && after == before.update(at, after[at]),
        at == before.len() ==> !paths_of(before).contains(path) && after == before.push(after[at]),
        after.len() > at,
        after[at].path@ == path,
    ensures
        paths_of(after).no_duplicates(),
        index_of_slots(after) == index_of_slots(before).insert(path, after[at].entry@),
{
    let old_paths = paths_of(before);
    let new_paths = paths_of(after);
    let goal = index_of_slots(before).insert(path, after[at].entry@);
    assert(new_paths =~= if at < before.len() {
        old_paths
    } else {
        old_paths.push(path)
    });
    assert(new_paths[at] == path);
    assert forall|k: Seq<u8>| index_of_slots(after).contains_key(k) <==> goal.contains_key(k) by {
        if old_paths.contains(k) {
            let j = old_paths.index_of(k);
            assert(new_paths[j] == k);
        }
        if new_paths.contains(k) && k != path {
            let j = new_paths.index_of(k);
            assert(old_paths[j] == k);
        }
    }
    let written = index_of_slots(after);
    assert forall|k: Seq<u8>| written.contains_key(k) implies #[trigger] written[k] == goal[k] by {
        let j = new_paths.index_of(k);
        assert(new_paths[j] == k);
        if k != path {
            let j0 = old_paths.index_of(k);
            assert(old_paths[j] == k);
            assert(old_paths[j0] == k);
            assert(j == j0);
            assert(after[j] == before[j]);
        } else {
            assert(j == at);
        }
    }
    assert(index_of_slots(after) =~= goal);
}

impl Cache {
    spec fn paths(&self) -> Seq<Seq<u8>> {
        paths_of(self.slots@)
    }

    /// No path has two slots, and every slot is filed under the hash of its
    /// path.
    #[verifier::type_invariant]
    spec fn well_formed(&self) -> bool {
        self.paths().no_duplicates() && filed(self.slots@, self.buckets@)
    }

    /// The index: each cached source path with its entry.
    pub closed spec fn index(&self) -> Map<Seq<u8>, EntryView> {
        index_of_slots(self.slots@)
    }

    /// The fingerprints of the batches recorded as fully cached.
    pub closed spec fn fingerprints(&self) -> Set<Seq<u8>> {
        Set::new(|key: Seq<u8>| recorded(self.batches@, key))
    }

    /// An empty cache.
    pub fn new() -> (cache: Cache)
        ensures
            cache.index() == Map::<Seq<u8>, EntryView>::empty(),
            cache.fingerprints() == Set::<Seq<u8>>::empty(),
    {
        let cache = Cache { slots: Vec::new(), buckets: HashMap::new(), batches: HashMap::new() };
        assert(cache.index() =~= Map::<Seq<u8>, EntryView>::empty());
        assert(cache.fingerprints() =~= Set::<Seq<u8>>::empty());
        cache
    }

    /// An empty cache with room for `capacity` paths.
    pub fn with_capacity(capacity: usize) -> (cache: Cache)
        ensures
            cache.index() == Map::<Seq<u8>, EntryView>::empty(),
            cache.fingerprints() == Set::<Seq<u8>>::empty(),
    {
        let cache = Cache {
            slots: Vec::with_capacity(capacity),
            buckets: HashMap::with_capacity(capacity),
            batches: HashMap::new(),
        };
        assert(cache.index() =~= Map::<Seq<u8>, EntryView>::empty());
        assert(cache.fingerprints() =~= Set::<Seq<u8>>::empty());
        cache
    }

    /// The slot of `path`, if it has one.
    fn position(&self, path: &[u8]) -> (at: Option<usize>)
        ensures
            match at {
                Some(i) => i < self.slots@.len() && self.paths()[i as int] == path@,
                None => !self.paths().contains(path@),
            },
    {
        proof {
            use_type_invariant(self);
        }
        let hash: u64 = path_hash(path);
        match self.buckets.get(&hash) {
            None => {
                assert forall|i: int| 0 <= i < self.slots@.len() implies self.paths()[i]
                    != path@ by {
                    assert(self.buckets@.contains_key(hash_of(self.paths()[i])));
                }
                None
            },
            Some(bucket) => {
                assert(self.buckets@[hash] == *bucket);
                let mut j: usize = 0;
                while j < bucket.len()
                    invariant
                        j <= bucket@.len(),
                        hash == hash_of(path@),
                        self.buckets@.contains_key(hash),
                        self.buckets@[hash] == *bucket,
                        filed(self.slots@, self.buckets@),
                        forall|k: int|
                            0 <= k < bucket@.len() ==> (#[trigger] bucket@[k]) < self.slots@.len(),
                        forall|k: int|
                            0 <= k < j ==> self.paths()[(#[trigger] bucket@[k]) as int] != path@,
                    decreases bucket@.len() - j,
                {
                    let i: usize = bucket[j];
                    if same_bytes(self.slots[i].path.as_slice(), path) {
                        return Some(i);
                    }
                    j = j + 1;
                }
                assert forall|i: int| 0 <= i < self.slots@.len() implies self.paths()[i]
                    != path@ by {
                    if self.paths()[i] == path@ {
                        assert(self.slots@.len() == self.slots.len());
                        let slot: usize = i as usize;
                        assert(hash_of(paths_of(self.slots@)[i]) == hash);
                        assert(bucket@.contains(slot));
                        let k = choose|k: int| 0 <= k < bucket@.len() && bucket@[k] == slot;
                        assert(self.paths()[bucket@[k] as int] != path@);
                    }
                }
                None
            },
        }
    }

    /// The number of paths in the index.
    pub fn len(&self) -> (n: usize)
        ensures
            self.index().dom().finite(),
            n == self.index().len(),
    {
        proof {
            use_type_invariant(self);
            self.paths().unique_seq_to_set();
            assert(self.index().dom() =~= self.paths().to_set());
        }
        self.slots.len()
    }

    /// The entry of `path`, if the index has one. A bitmap held in memory is
    /// shared, not copied.
    pub fn lookup(&self, path: &[u8]) -> (found: Option<CacheEntry>)
        ensures
            match found {
                Some(entry) => self.index().contains_key(path@) && self.index()[path@] == entry@,
                None => !self.index().contains_key(path@),
            },
    {
        proof {
            use_type_invariant(self);
        }
        match self.position(path) {
            Some(i) => {
                assert(self.paths().index_of(path@) == i);
                match &self.slots[i].entry {
                    CacheEntry::OnDisk(id) => Some(CacheEntry::OnDisk(*id)),
                    CacheEntry::InMemory(bytes) => Some(CacheEntry::InMemory(share(bytes))),
                }
            },
            None => None,
        }
    }

    /// Puts `entry` under `path`, in place of the entry that `path` had, if any,
    /// which is returned. Where that one named a file of the disk tier, the file
    /// is left behind: nothing deletes it but a `clear` that still finds it in
    /// the index. The batch fingerprints stay.
    pub fn insert(&mut self, path: Vec<u8>, entry: CacheEntry) -> (replaced: Option<CacheEntry>)
        ensures
            final(self).index() == old(self).index().insert(path@, entry@),
            final(self).fingerprints() == old(self).fingerprints(),
            match replaced {
                Some(e) => old(self).index().contains_key(path@) && old(self).index()[path@]
                    == e@,
                None => !old(self).index().contains_key(path@),
            },
    {
        proof {
            use_type_invariant(&*self);
        }
        let ghost before = *self;
        let at: Option<usize> = self.position(path.as_slice());
        let hash: u64 = path_hash(path.as_slice());
        let mut taken: Cache = Cache::new();
        core::mem::swap(self, &mut taken);
        let Cache { mut slots, mut buckets, batches } = taken;
        let replaced: Option<CacheEntry> = match at {
            Some(i) => {
                assert(before.paths().index_of(path@) == i);
                slots.push(Slot { path, entry });
                let was: Slot = slots.swap_remove(i);
                proof {
                    assert(slots@ =~= before.slots@.update(i as int, slots@[i as int]));
                    lemma_slot_written(before.slots@, slots@, i as int, path@);
                    assert(paths_of(slots@) =~= paths_of(before.slots@));
                }
                Some(was.entry)
            },
            None => {
                let fresh: usize = slots.len();
                slots.push(Slot { path, entry });
                let mut bucket: Vec<usize> = match buckets.remove(&hash) {
                    Some(bucket) => bucket,
                    None => Vec::new(),
                };
                let ghost filed_before = bucket@;
                bucket.push(fresh);
                buckets.insert(hash, bucket);
                proof {
                    lemma_slot_written(before.slots@, slots@, fresh as int, path@);
                    assert(paths_of(slots@) =~= paths_of(before.slots@).push(path@));
                    assert forall|i: int| 0 <= i < slots@.len() implies buckets@.contains_key(
                        hash_of(#[trigger] paths_of(slots@)[i]),
                    ) && buckets@[hash_of(paths_of(slots@)[i])]@.contains(i as usize) by {
                        let h = hash_of(paths_of(slots@)[i]);
                        if i < fresh {
                            assert(paths_of(before.slots@)[i] == paths_of(slots@)[i]);
                            let was = before.buckets@[h]@;
                            assert(was.contains(i as usize));
                            if h == hash {
                                let k = choose|k: int| 0 <= k < was.len() && was[k] == i as usize;
                                assert(was == filed_before);
                                assert(buckets@[h]@[k] == i as usize);
                            }
                        } else {
                            assert(buckets@[h]@[filed_before.len() as int] == i as usize);
                        }
                    }
                    assert forall|h: u64, j: int|
                        buckets@.contains_key(h) && 0 <= j < buckets@[h]@.len() implies (
                    #[trigger] buckets@[h]@[j]) < slots@.len() by {
                        if h == hash {
                            if j < filed_before.len() {
                                assert(before.buckets@.contains_key(h));
                                assert(before.buckets@[h]@[j] < before.slots@.len());
                            }
                        } else {
                            assert(before.buckets@[h]@[j] < before.slots@.len());
                        }
                    }
                }
                None
            },
        };
        *self = Cache { slots, buckets, batches };
        assert(self.fingerprints() =~= before.fingerprints());
        replaced
    }

    /// Empties the index and the set of batch fingerprints, and returns the
    /// entries of the disk tier that the index held, each path once: their files
    /// are the caller's to delete.
    pub fn clear(&mut self) -> (evicted: Vec<Evicted>)
        ensures
            final(self).index() == Map::<Seq<u8>, EntryView>::empty(),
            final(self).fingerprints() == Set::<Seq<u8>>::empty(),
            forall|i: int|
                0 <= i < evicted@.len() ==> old(self).index().contains_key(
                    #[trigger] evicted@[i].path@,
                ) && old(self).index()[evicted@[i].path@] == EntryView::OnDisk(evicted@[i].id),
            forall|i: int, j: int|
                0 <= i < j < evicted@.len() ==> evicted@[i].path@ != evicted@[j].path@,
            forall|path: Seq<u8>|
                old(self).index().contains_key(path) && old(self).index()[path] is OnDisk
                    ==> exists|i: int| 0 <= i < evicted@.len() && evicted@[i].path@ == path,
    {
        proof {
            use_type_invariant(&*self);
        }
        let ghost before = *self;
        let mut taken: Cache = Cache::new();
        core::mem::swap(self, &mut taken);
        let Cache { slots, buckets: _, batches: _ } = taken;
        let mut evicted: Vec<Evicted> = Vec::new();
        let ghost mut origin: Seq<int> = Seq::empty();
        let mut i: usize = 0;
        while i < slots.len()
            invariant
                i <= slots@.len(),
                slots@ == before.slots@,
                before.paths().no_duplicates(),
                origin.len() == evicted@.len(),
                forall|e: int|
                    0 <= e < evicted@.len() ==> 0 <= #[trigger] origin[e] < i && evicted@[e].path@
                        == slots@[origin[e]].path@ && slots@[origin[e]].entry@
                        == EntryView::OnDisk(evicted@[e].id),
                forall|e: int, f: int| 0 <= e < f < origin.len() ==> origin[e] < origin[f],
                forall|j: int|
                    0 <= j < i && (#[trigger] slots@[j]).entry@ is OnDisk ==> exists|e: int|
                        0 <= e < origin.len() && origin[e] == j,
            decreases slots@.len() - i,
        {
            match &slots[i].entry {
                CacheEntry::OnDisk(id) => {
                    let path: Vec<u8> = copy_bytes(slots[i].path.as_slice());
                    evicted.push(Evicted { path, id: *id });
                    proof {
                        let ghost grown = origin.push(i as int);
                        assert forall|j: int|
                            0 <= j < i + 1 && (#[trigger] slots@[j]).entry@ is OnDisk implies
                            exists|e: int| 0 <= e < grown.len() && grown[e] == j by {
                            if j < i {
                                let e = choose|e: int| 0 <= e < origin.len() && origin[e] == j;
                                assert(grown[e] == j);
                            } else {
                                assert(grown[origin.len() as int] == j);
                            }
                        }
                        origin = grown;
                    }
                },
                CacheEntry::InMemory(_) => {},
            }
            i = i + 1;
        }
        proof {
            assert forall|e: int| 0 <= e < evicted@.len() implies before.index().contains_key(
                #[trigger] evicted@[e].path@,
            ) && before.index()[evicted@[e].path@] == EntryView::OnDisk(evicted@[e].id) by {
                let path = evicted@[e].path@;
                assert(before.paths()[origin[e]] == path);
                let j = before.paths().index_of(path);
                assert(before.paths()[j] == path);
                assert(j == origin[e]);
            }
            assert forall|e: int, f: int| 0 <= e < f < evicted@.len() implies evicted@[e].path@
                != evicted@[f].path@ by {
                assert(before.paths()[origin[e]] == evicted@[e].path@);
                assert(before.paths()[origin[f]] == evicted@[f].path@);
            }
            assert forall|path: Seq<u8>|
                before.index().contains_key(path) && before.index()[path] is OnDisk implies exists|
                e: int,
            | 0 <= e < evicted@.len() && evicted@[e].path@ == path by {
                let j = before.paths().index_of(path);
                assert(before.paths()[j] == path);
                assert(slots@[j].entry@ is OnDisk);
                let e = choose|e: int| 0 <= e < origin.len() && origin[e] == j;
                assert(evicted@[e].path@ == path);
            }
        }
        evicted
    }

    /// Whether a batch with this fingerprint was recorded as fully cached.
    pub fn batch_is_fully_cached(&self, fingerprint: &[u8]) -> (known: bool)
        ensures
            known == self.fingerprints().contains(fingerprint@),
    {
        let hash: u64 = path_hash(fingerprint);
        match self.batches.get(&hash) {
            None => false,
            Some(bucket) => {
                assert(self.batches@[hash] == *bucket);
                let mut j: usize = 0;
                while j < bucket.len()
                    invariant
                        j <= bucket@.len(),
                        hash == hash_of(fingerprint@),
                        self.batches@.contains_key(hash),
                        self.batches@[hash] == *bucket,
                        forall|k: int| 0 <= k < j ==> (#[trigger] bucket@[k])@ != fingerprint@,
                    decreases bucket@.len() - j,
                {
                    if same_bytes(bucket[j].as_slice(), fingerprint) {
                        assert(bucket@[j as int]@ == fingerprint@);
                        return true;
                    }
                    j = j + 1;
                }
                false
            },
        }
    }

    /// Records that every path of the batch with this fingerprint is in the
    /// index. The index stays.
    pub fn record_batch(&mut self, fingerprint: Vec<u8>)
        ensures
            final(self).fingerprints() == old(self).fingerprints().insert(fingerprint@),
            final(self).index() == old(self).index(),
    {
        proof {
            use_type_invariant(&*self);
        }
        let ghost before = *self;
        if self.batch_is_fully_cached(fingerprint.as_slice()) {
            assert(self.fingerprints() =~= before.fingerprints().insert(fingerprint@));
            return ;
        }
        let hash: u64 = path_hash(fingerprint.as_slice());
        let mut taken: Cache = Cache::new();
        core::mem::swap(self, &mut taken);
        let Cache { slots, buckets, mut batches } = taken;
        let mut bucket: Vec<Vec<u8>> = match batches.remove(&hash) {
            Some(bucket) => bucket,
            None => Vec::new(),
        };
        let ghost filed_before = bucket@;
        bucket.push(fingerprint);
        batches.insert(hash, bucket);
        *self = Cache { slots, buckets, batches };
        proof {
            assert forall|key: Seq<u8>|
                self.fingerprints().contains(key) <==> before.fingerprints().insert(
                    fingerprint@,
                ).contains(key) by {
                let h = hash_of(key);
                if recorded(before.batches@, key) {
                    let j = choose|j: int|
                        0 <= j < before.batches@[h]@.len() && (#[trigger] before.batches@[h]@[j])@
                            == key;
                    if h == hash {
                        assert(before.batches@[h]@ == filed_before);
                        assert(self.batches@[h]@[j]@ == key);
                    } else {
                        assert(self.batches@[h]@[j]@ == key);
                    }
                }
                if key == fingerprint@ {
                    assert(self.batches@[h]@[filed_before.len() as int]@ == key);
                }
                if recorded(self.batches@, key) && key != fingerprint@ {
                    let j = choose|j: int|
                        0 <= j < self.batches@[h]@.len() && (#[trigger] self.batches@[h]@[j])@
                            == key;
                    if h == hash {
                        assert(j < filed_before.len());
                        assert(before.batches@.contains_key(h));
                        assert(before.batches@[h]@[j]@ == key);
                    } else {
                        assert(before.batches@[h]@[j]@ == key);
                    }
                }
            }
            assert(self.fingerprints() =~= before.fingerprints().insert(fingerprint@));
        }
    }
}

/// The number given to an entry of the disk tier that arrives while the index
/// holds `size` paths: `size` itself, in 32 bits.
pub open spec fn next_id(size: nat) -> u32 {
    (size % 0x1_0000_0000) as u32
}

/// How a new bitmap is to be stored: the entry to put into the index, and the
/// file that has to be written with the bitmap before that, if there is one.
#[derive(Debug)]
pub struct Placement {
    pub entry: CacheEntry,
    pub file: Option<Vec<u8>>,
}

/// A placement as plain values.
pub struct PlacementView {
    pub entry: EntryView,
    pub file: Option<Seq<u8>>,
}

impl View for Placement {
    type V = PlacementView;

    open spec fn view(&self) -> PlacementView {
        PlacementView {
            entry: self.entry@,
            file: match self.file {
                Some(f) => Some(f@),
                None => None,
            },
        }
    }
}

/// The placement of the bitmap `bytes` that arrives, with `tier` chosen for it,
/// while the index holds `size` paths. The disk tier needs the configured
/// directory: without it the placement fails with `NotSetup`.
pub open spec fn placement(
    size: nat,
    config: Option<ConfigurationView>,
    bytes: Seq<u8>,
    tier: Tier,
) -> Result<PlacementView, Error> {
    match tier {
        Tier::Memory => Ok(PlacementView { entry: EntryView::InMemory(bytes), file: None }),
        Tier::Disk => match config {
            None => Err(Error::NotSetup),
            Some(c) => Ok(
                PlacementView {
                    entry: EntryView::OnDisk(next_id(size)),
                    file: Some(disk_cache_path(c.disk_cache_dir, next_id(size))),
                },
            ),
        },
    }
}

/// Decides how the bitmap `img_bytes` is stored in `cache`, for the tier that was
/// chosen for it. The caller holds the cache for writing, writes the bitmap to
/// the placement's file where it names one, and then inserts the placement's
/// entry under the image's path.
pub fn cache_img(
    cache: &Cache,
    config: Option<&Configuration>,
    img_bytes: Arc<Vec<u8>>,
    tier: Tier,
) -> (placed: Result<Placement, Error>)
    ensures
        match placed {
            Ok(p) => placement(cache.index().len(), view_of(config), img_bytes@, tier) == Ok::<
                PlacementView,
                Error,
            >(p@),
            Err(e) => placement(cache.index().len(), view_of(config), img_bytes@, tier) == Err::<
                PlacementView,
                Error,
            >(e),
        },
{
    match tier {
        Tier::Memory => Ok(Placement { entry: CacheEntry::InMemory(img_bytes), file: None }),
        Tier::Disk => {
            let size: usize = cache.len();
            let cache_id: u32 = #[verifier::truncate] (size as u32);
            assert(cache_id == next_id(size as nat)) by {
                assert(size as u32 == (size as int % 0x1_0000_0000) as u32) by (bit_vector);
            }
            match get_disk_cache_path(config, cache_id) {
                Ok(file) => Ok(Placement { entry: CacheEntry::OnDisk(cache_id), file: Some(file) }),
                Err(e) => Err(e),
            }
        },
    }
}

/// What the cache has for a path.
#[derive(Debug)]
pub enum Cached {
    /// Nothing.
    Miss,
    /// The bitmap itself.
    Bytes(Arc<Vec<u8>>),
    /// The file of the disk tier that holds the bitmap.
    File(Vec<u8>),
}

/// A lookup's result as plain values.
pub enum CachedView {
    Miss,
    Bytes(Seq<u8>),
    File(Seq<u8>),
}

impl View for Cached {
    type V = CachedView;

    open spec fn view(&self) -> CachedView {
        match self {
            Cached::Miss => CachedView::Miss,
            Cached::Bytes(bytes) => CachedView::Bytes(bytes@),
            Cached::File(file) => CachedView::File(file@),
        }
    }
}

/// What a lookup of `path` gives. An entry of the disk tier is answered with
/// the name of its file, which needs the configured directory: without it the
/// lookup fails with `NotSetup`.
pub open spec fn cached(
    index: Map<Seq<u8>, EntryView>,
    config: Option<ConfigurationView>,
    path: Seq<u8>,
) -> Result<CachedView, Error> {
    if !index.contains_key(path) {
        Ok(CachedView::Miss)
    } else {
        match index[path] {
            EntryView::InMemory(bytes) => Ok(CachedView::Bytes(bytes)),
            EntryView::OnDisk(id) => match config {
                None => Err(Error::NotSetup),
                Some(c) => Ok(CachedView::File(disk_cache_path(c.disk_cache_dir, id))),
            },
        }
    }
}

/// Looks `path` up. The caller holds the cache for reading, and reads the file,
/// where the answer names one, after it has let the cache go.
pub fn get_from_cache(path: &[u8], cache: &Cache, config: Option<&Configuration>) -> (found: Result<
    Cached,
    Error,
>)
    ensures
        match found {
            Ok(c) => cached(cache.index(), view_of(config), path@) == Ok::<CachedView, Error>(c@),
            Err(e) => cached(cache.index(), view_of(config), path@) == Err::<CachedView, Error>(e),
        },
{
    match cache.lookup(path) {
        None => Ok(Cached::Miss),
        Some(CacheEntry::InMemory(bytes)) => Ok(Cached::Bytes(bytes)),
        Some(CacheEntry::OnDisk(id)) => match get_disk_cache_path(config, id) {
            Ok(file) => Ok(Cached::File(file)),
            Err(e) => Err(e),
        },
    }
}

/// The bitmap that a lookup of `path` ends with, once the file that it may name
/// has been read from `disk`, which maps the name of each file to its content.
pub open spec fn resolved(
    index: Map<Seq<u8>, EntryView>,
    config: Option<ConfigurationView>,
    disk: Map<Seq<u8>, Seq<u8>>,
    path: Seq<u8>,
) -> Option<Seq<u8>> {
    match cached(index, config, path) {
        Ok(CachedView::Bytes(bytes)) => Some(bytes),
        Ok(CachedView::File(file)) => if disk.contains_key(file) {
            Some(disk[file])
        } else {
            None
        },
        _ => None,
    }
}

/// The disk after the file of a placement, where it names one, has been written
/// with `bytes`.
pub open spec fn disk_after_write(
    disk: Map<Seq<u8>, Seq<u8>>,
    placed: PlacementView,
    bytes: Seq<u8>,
) -> Map<Seq<u8>, Seq<u8>> {
    match placed.file {
        Some(file) => disk.insert(file, bytes),
        None => disk,
    }
}

/// A bitmap that was just cached is what the next lookup of its path ends with,
/// byte for byte, in whichever tier it was placed.
pub proof fn lemma_lookup_after_insert(
    index: Map<Seq<u8>, EntryView>,
    config: Option<ConfigurationView>,
    disk: Map<Seq<u8>, Seq<u8>>,
    path: Seq<u8>,
    bytes: Seq<u8>,
    tier: Tier,
)
    requires
        placement(index.len(), config, bytes, tier) is Ok,
    ensures
        ({
            let placed = placement(index.len(), config, bytes, tier)->Ok_0;
            resolved(
                index.insert(path, placed.entry),
                config,
                disk_after_write(disk, placed, bytes),
                path,
            ) == Some(bytes)
        }),
{
}

/// A bitmap placed in the disk tier is in the file `{dir}/{id}.bmp`, where `id`
/// is the size that the index had, once the placement's file has been written;
/// and the index names that file for its path.
pub proof fn lemma_disk_placement_leaves_file(
    index: Map<Seq<u8>, EntryView>,
    config: ConfigurationView,
    disk: Map<Seq<u8>, Seq<u8>>,
    path: Seq<u8>,
    bytes: Seq<u8>,
)
    ensures
        ({
            let placed = placement(index.len(), Some(config), bytes, Tier::Disk)->Ok_0;
            let file = disk_cache_path(config.disk_cache_dir, next_id(index.len()));
            let after = disk_after_write(disk, placed, bytes);
            &&& placement(index.len(), Some(config), bytes, Tier::Disk) is Ok
            &&& placed.entry == EntryView::OnDisk(next_id(index.len()))
            &&& placed.file == Some(file)
            &&& after.contains_key(file)
            &&& after[file] == bytes
            &&& cached(index.insert(path, placed.entry), Some(config), path) == Ok::<
                CachedView,
                Error,
            >(CachedView::File(file))
        }),
{
}

/// A file of the disk tier that has to be deleted.
#[derive(Debug)]
pub struct Removal {
    /// The source path whose bitmap the file held.
    pub path: Vec<u8>,
    /// The name of the file.
    pub file: Vec<u8>,
}

/// Empties the cache, and lists the file of every entry of the disk tier that
/// the index held, each path once: the caller, who holds the cache for writing,
/// deletes them. The cache is emptied in any case. Fails with `NotSetup`
/// exactly when the index held an entry of the disk tier and no configuration
/// is in force to name its file.
pub fn clear_cache(cache: &mut Cache, config: Option<&Configuration>) -> (removals: Result<
    Vec<Removal>,
    Error,
>)
    ensures
        final(cache).index() == Map::<Seq<u8>, EntryView>::empty(),
        final(cache).fingerprints() == Set::<Seq<u8>>::empty(),
        removals is Err <==> config is None && exists|path: Seq<u8>|
            old(cache).index().contains_key(path) && old(cache).index()[path] is OnDisk,
        removals matches Err(e) ==> e == Error::NotSetup,
        removals matches Ok(list) ==> {
            &&& forall|i: int|
                0 <= i < list@.len() ==> {
                    &&& old(cache).index().contains_key(#[trigger] list@[i].path@)
                    &&& old(cache).index()[list@[i].path@] is OnDisk
                    &&& config is Some
                    &&& list@[i].file@ == disk_cache_path(
                        config->Some_0.disk_cache_dir@,
                        old(cache).index()[list@[i].path@]->OnDisk_0,
                    )
                }
            &&& forall|i: int, j: int|
                0 <= i < j < list@.len() ==> list@[i].path@ != list@[j].path@
            &&& forall|path: Seq<u8>|
                old(cache).index().contains_key(path) && old(cache).index()[path] is OnDisk
                    ==> exists|i: int| 0 <= i < list@.len() && list@[i].path@ == path
        },
{
    let ghost before = cache.index();
    let evicted: Vec<Evicted> = cache.clear();
    let mut list: Vec<Removal> = Vec::new();
    if evicted.len() == 0 {
        assert forall|path: Seq<u8>| before.contains_key(path) implies !(before[path]
            is OnDisk) by {
            if before[path] is OnDisk {
                let i = choose|i: int| 0 <= i < evicted@.len() && evicted@[i].path@ == path;
            }
        }
        return Ok(list);
    }
    let c: &Configuration = match config {
        Some(c) => c,
        None => {
            assert(before.contains_key(evicted@[0].path@) && before[evicted@[0].path@] is OnDisk);
            return Err(Error::NotSetup);
        },
    };
    let mut i: usize = 0;
    while i < evicted.len()
        invariant
            i <= evicted@.len(),
            config == Some(c),
            list@.len() == i,
            forall|k: int|
                0 <= k < evicted@.len() ==> before.contains_key(#[trigger] evicted@[k].path@)
                    && before[evicted@[k].path@] == EntryView::OnDisk(evicted@[k].id),
            forall|k: int|
                0 <= k < i ==> (#[trigger] list@[k]).path@ == evicted@[k].path@ && list@[k].file@
                    == disk_cache_path(c.disk_cache_dir@, evicted@[k].id),
        decreases evicted@.len() - i,
    {
        let file: Vec<u8> = disk_cache_file(c.disk_cache_dir.as_slice(), evicted[i].id);
        let path: Vec<u8> = copy_bytes(evicted[i].path.as_slice());
        list.push(Removal { path, file });
        i = i + 1;
    }
    proof {
        assert forall|path: Seq<u8>|
            before.contains_key(path) && before[path] is OnDisk implies exists|k: int|
            0 <= k < list@.len() && list@[k].path@ == path by {
            let k = choose|k: int| 0 <= k < evicted@.len() && evicted@[k].path@ == path;
            assert(list@[k].path@ == path);
        }
        assert forall|k: int, j: int| 0 <= k < j < list@.len() implies list@[k].path@
            != list@[j].path@ by {
            assert(list@[k].path@ == evicted@[k].path@);
            assert(list@[j].path@ == evicted@[j].path@);
        }
        assert forall|k: int| 0 <= k < list@.len() implies {
            &&& before.contains_key(#[trigger] list@[k].path@)
            &&& before[list@[k].path@] is OnDisk
            &&& list@[k].file@ == disk_cache_path(
                c.disk_cache_dir@,
                before[list@[k].path@]->OnDisk_0,
            )
        } by {
            assert(list@[k].path@ == evicted@[k].path@);
        }
    }
    Ok(list)
}

/// Once the files that `clear_cache` lists are deleted, no file that the index
/// named is left on the disk.
pub proof fn lemma_clear_leaves_no_file(
    index: Map<Seq<u8>, EntryView>,
    dir: Seq<u8>,
    disk: Map<Seq<u8>, Seq<u8>>,
    files: Seq<Seq<u8>>,
)
    requires
        forall|path: Seq<u8>|
            index.contains_key(path) && index[path] is OnDisk ==> exists|i: int|
                0 <= i < files.len() && files[i] == disk_cache_path(dir, index[path]->OnDisk_0),
    ensures
        forall|path: Seq<u8>|
            index.contains_key(path) && index[path] is OnDisk ==> !disk.remove_keys(
                files.to_set(),
            ).contains_key(disk_cache_path(dir, (#[trigger] index[path])->OnDisk_0)),
{
    let left = disk.remove_keys(files.to_set());
    assert forall|path: Seq<u8>|
        index.contains_key(path) && index[path] is OnDisk implies !left.contains_key(
        disk_cache_path(dir, (#[trigger] index[path])->OnDisk_0),
    ) by {
        let i = choose|i: int|
            0 <= i < files.len() && files[i] == disk_cache_path(dir, index[path]->OnDisk_0);
        assert(files.to_set().contains(files[i]));
    }
}

/// Whether the numbers of the disk tier are in order: each is less than the
/// size of the index, and no two paths have the same.
pub open spec fn ids_in_order(index: Map<Seq<u8>, EntryView>) -> bool {
    &&& forall|path: Seq<u8>|
        index.contains_key(path) && index[path] is OnDisk ==> (#[trigger] index[path])->OnDisk_0
            < index.len()
    &&& forall|p: Seq<u8>, q: Seq<u8>|
        index.contains_key(p) && index.contains_key(q) && p != q && index[p] is OnDisk
            && index[q] is OnDisk ==> (#[trigger] index[p])->OnDisk_0 != (
        #[trigger] index[q])->OnDisk_0
}

/// While every insertion is of a path that the index does not hold, no number
/// of the disk tier is given twice: the numbers stay in order, in either tier,
/// as long as the size of the index fits 32 bits. An empty index has them in
/// order.
pub proof fn lemma_ids_stay_in_order(
    index: Map<Seq<u8>, EntryView>,
    config: Option<ConfigurationView>,
    path: Seq<u8>,
    bytes: Seq<u8>,
    tier: Tier,
)
    requires
        index.dom().finite(),
        index.len() < 0x1_0000_0000,
        ids_in_order(index),
        !index.contains_key(path),
        placement(index.len(), config, bytes, tier) is Ok,
    ensures
        ids_in_order(index.insert(path, placement(index.len(), config, bytes, tier)->Ok_0.entry)),
        ids_in_order(Map::<Seq<u8>, EntryView>::empty()),
{
    let entry = placement(index.len(), config, bytes, tier)->Ok_0.entry;
    let grown = index.insert(path, entry);
    assert(grown.len() == index.len() + 1);
    assert forall|p: Seq<u8>| grown.contains_key(p) && grown[p] is OnDisk implies (
    #[trigger] grown[p])->OnDisk_0 < grown.len() by {
        if p != path {
            assert(index[p]->OnDisk_0 < index.len());
        }
    }
    assert forall|p: Seq<u8>, q: Seq<u8>|
        grown.contains_key(p) && grown.contains_key(q) && p != q && grown[p] is OnDisk
            && grown[q] is OnDisk implies (#[trigger] grown[p])->OnDisk_0 != (
        #[trigger] grown[q])->OnDisk_0 by {
        if p != path && q != path {
            assert(index[p]->OnDisk_0 != index[q]->OnDisk_0);
        } else if p == path {
            assert(index[q]->OnDisk_0 < index.len());
        } else {
            assert(index[p]->OnDisk_0 < index.len());
        }
    }
}


/// Whether every path in the index still stands for its bitmap: a lookup of it
/// ends with what `bitmaps` holds for it.
pub open spec fn faithful(
    index: Map<Seq<u8>, EntryView>,
    config: Option<ConfigurationView>,
    disk: Map<Seq<u8>, Seq<u8>>,
    bitmaps: Map<Seq<u8>, Seq<u8>>,
) -> bool {
    forall|path: Seq<u8>|
        index.contains_key(path) ==> bitmaps.contains_key(path) && #[trigger] resolved(
            index,
            config,
            disk,
            path,
        ) == Some(bitmaps[path])
}

/// Caching one image disturbs no other. While every insertion is of a path that
/// the index does not hold, and the size of the index fits 32 bits: after a
/// bitmap has been placed in either tier, its file written and its entry
/// inserted, every path of the index, the new one and all that were there,
/// stands for its own bitmap.
pub proof fn lemma_cache_stays_faithful(
    index: Map<Seq<u8>, EntryView>,
    config: Option<ConfigurationView>,
    disk: Map<Seq<u8>, Seq<u8>>,
    bitmaps: Map<Seq<u8>, Seq<u8>>,
    path: Seq<u8>,
    bytes: Seq<u8>,
    tier: Tier,
)
    requires
        index.dom().finite(),
        index.len() < 0x1_0000_0000,
        ids_in_order(index),
        faithful(index, config, disk, bitmaps),
        !index.contains_key(path),
        placement(index.len(), config, bytes, tier) is Ok,
    ensures
        ({
            let placed = placement(index.len(), config, bytes, tier)->Ok_0;
            faithful(
                index.insert(path, placed.entry),
                config,
                disk_after_write(disk, placed, bytes),
                bitmaps.insert(path, bytes),
            )
        }),
{
    let placed = placement(index.len(), config, bytes, tier)->Ok_0;
    let grown = index.insert(path, placed.entry);
    let written = disk_after_write(disk, placed, bytes);
    let known = bitmaps.insert(path, bytes);
    assert forall|p: Seq<u8>| grown.contains_key(p) implies known.contains_key(p)
        && #[trigger] resolved(grown, config, written, p) == Some(known[p]) by {
        if p != path {
            assert(resolved(index, config, disk, p) == Some(bitmaps[p]));
            if index[p] is OnDisk && tier == Tier::Disk {
                let id = index[p]->OnDisk_0;
                assert(id < index.len());
                if disk_cache_path(config->Some_0.disk_cache_dir, id) == disk_cache_path(
                    config->Some_0.disk_cache_dir,
                    next_id(index.len()),
                ) {
                    lemma_disk_cache_path_is_injective(
                        config->Some_0.disk_cache_dir,
                        id,
                        next_id(index.len()),
                    );
                }
            }
        }
    }
}

} // verus!
