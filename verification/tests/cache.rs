use img_process_server::cache::{cache_img, clear_cache, get_from_cache, Cache, CacheEntry, Cached};
use img_process_server::config::Configuration;
use img_process_server::error::Error;
use img_process_server::memory::{select_tier, Tier};
use std::collections::HashMap;
use std::sync::Arc;

fn config() -> Configuration {
    Configuration {
        disk_cache_dir: b"cache".to_vec(),
        working_dir: b"img".to_vec(),
        threaded_reads: false,
    }
}

fn bytes_of(found: Option<CacheEntry>) -> Option<Vec<u8>> {
    match found {
        Some(CacheEntry::InMemory(bytes)) => Some(bytes.to_vec()),
        _ => None,
    }
}

fn id_of(found: Option<CacheEntry>) -> Option<u32> {
    match found {
        Some(CacheEntry::OnDisk(id)) => Some(id),
        _ => None,
    }
}

/// Caches `bytes` under `path` the way the service does: place, write the file,
/// insert.
fn store(
    cache: &mut Cache,
    config: Option<&Configuration>,
    disk: &mut HashMap<Vec<u8>, Vec<u8>>,
    path: &[u8],
    bytes: &[u8],
    available_memory: u64,
) -> Result<(), Error> {
    let shared = Arc::new(bytes.to_vec());
    let placed = cache_img(cache, config, shared.clone(), select_tier(available_memory))?;
    if let Some(file) = &placed.file {
        disk.insert(file.clone(), shared.to_vec());
    }
    cache.insert(path.to_vec(), placed.entry);
    Ok(())
}

/// Looks `path` up the way the service does: the cache, then the file it names.
fn fetch(
    cache: &Cache,
    config: Option<&Configuration>,
    disk: &HashMap<Vec<u8>, Vec<u8>>,
    path: &[u8],
) -> Result<Option<Vec<u8>>, Error> {
    Ok(match get_from_cache(path, cache, config)? {
        Cached::Miss => None,
        Cached::Bytes(bytes) => Some(bytes.to_vec()),
        Cached::File(file) => disk.get(&file).cloned(),
    })
}

#[test]
fn a_new_cache_is_empty() {
    let cache = Cache::new();
    assert_eq!(cache.len(), 0);
    assert!(cache.lookup(b"a.png").is_none());
    assert!(!cache.batch_is_fully_cached(b""));
    assert!(!cache.batch_is_fully_cached(b"a.png"));
}

#[test]
fn a_cache_with_room_is_empty_too() {
    let mut cache = Cache::with_capacity(300_000);
    assert_eq!(cache.len(), 0);
    assert!(cache.lookup(b"a.png").is_none());
    cache.insert(b"a.png".to_vec(), CacheEntry::OnDisk(0));
    assert_eq!(cache.len(), 1);
}

#[test]
fn many_paths_are_all_found() {
    let mut cache = Cache::new();
    for i in 0..5000u32 {
        cache.insert(format!("dir/{i}.png").into_bytes(), CacheEntry::OnDisk(i));
    }
    assert_eq!(cache.len(), 5000);
    for i in 0..5000u32 {
        assert_eq!(id_of(cache.lookup(format!("dir/{i}.png").as_bytes())), Some(i));
        cache.record_batch(format!("batch{i}").into_bytes());
    }
    assert!(cache.lookup(b"dir/5000.png").is_none());
    for i in (0..5000u32).step_by(7) {
        cache.insert(format!("dir/{i}.png").into_bytes(), CacheEntry::OnDisk(i + 1));
    }
    assert_eq!(cache.len(), 5000);
    for i in 0..5000u32 {
        let expected = if i % 7 == 0 { i + 1 } else { i };
        assert_eq!(id_of(cache.lookup(format!("dir/{i}.png").as_bytes())), Some(expected));
        assert!(cache.batch_is_fully_cached(format!("batch{i}").as_bytes()));
    }
    assert!(!cache.batch_is_fully_cached(b"batch5000"));
    assert_eq!(cache.clear().len(), 5000);
    assert_eq!(cache.len(), 0);
    assert!(cache.lookup(b"dir/0.png").is_none());
    assert!(!cache.batch_is_fully_cached(b"batch0"));
}

#[test]
fn lookup_returns_what_was_inserted() {
    let mut cache = Cache::new();
    cache.insert(b"a.png".to_vec(), CacheEntry::InMemory(Arc::new(vec![1, 2, 3])));
    cache.insert(b"b.png".to_vec(), CacheEntry::OnDisk(1));
    assert_eq!(cache.len(), 2);
    assert_eq!(bytes_of(cache.lookup(b"a.png")), Some(vec![1, 2, 3]));
    assert_eq!(id_of(cache.lookup(b"b.png")), Some(1));
    assert!(cache.lookup(b"c.png").is_none());
}

#[test]
fn paths_are_opaque_keys() {
    let mut cache = Cache::new();
    cache.insert(b"a.png".to_vec(), CacheEntry::OnDisk(0));
    assert!(cache.lookup(b"A.png").is_none());
    assert!(cache.lookup(b"a.png ").is_none());
    assert!(cache.lookup(b" a.png").is_none());
    assert!(cache.lookup(b"a.pn").is_none());
    assert!(cache.lookup(b"").is_none());
    assert!(cache.lookup(b"a.png").is_some());
}

#[test]
fn a_second_insert_replaces_the_first() {
    let mut cache = Cache::new();
    assert!(cache.insert(b"a.png".to_vec(), CacheEntry::OnDisk(0)).is_none());
    assert!(cache.insert(b"b.png".to_vec(), CacheEntry::OnDisk(1)).is_none());
    let replaced = cache.insert(b"a.png".to_vec(), CacheEntry::InMemory(Arc::new(vec![9])));
    assert_eq!(id_of(replaced), Some(0));
    let replaced = cache.insert(b"a.png".to_vec(), CacheEntry::OnDisk(2));
    assert_eq!(bytes_of(replaced), Some(vec![9]));
    cache.insert(b"a.png".to_vec(), CacheEntry::InMemory(Arc::new(vec![9])));
    assert_eq!(cache.len(), 2);
    assert_eq!(bytes_of(cache.lookup(b"a.png")), Some(vec![9]));
    assert_eq!(id_of(cache.lookup(b"b.png")), Some(1));
}

#[test]
fn a_bitmap_in_memory_is_shared_not_copied() {
    let mut cache = Cache::new();
    let bitmap = Arc::new(vec![4u8; 1000]);
    cache.insert(b"a.png".to_vec(), CacheEntry::InMemory(bitmap.clone()));
    match cache.lookup(b"a.png") {
        Some(CacheEntry::InMemory(found)) => assert!(Arc::ptr_eq(&found, &bitmap)),
        other => panic!("unexpected entry {other:?}"),
    }
}

#[test]
fn ample_memory_keeps_the_bitmap_in_memory() {
    let cache = Cache::new();
    let placed = cache_img(&cache, None, Arc::new(vec![1, 2]), Tier::Memory).unwrap();
    assert_eq!(bytes_of(Some(placed.entry)), Some(vec![1, 2]));
    assert_eq!(placed.file, None);
}

#[test]
fn scarce_memory_sends_the_bitmap_to_disk() {
    let mut cache = Cache::new();
    let config = config();
    let placed = cache_img(&cache, Some(&config), Arc::new(vec![1, 2]), Tier::Disk).unwrap();
    assert_eq!(id_of(Some(placed.entry)), Some(0));
    assert_eq!(placed.file, Some(b"cache/0.bmp".to_vec()));
    cache.insert(b"a".to_vec(), CacheEntry::OnDisk(0));
    cache.insert(b"b".to_vec(), CacheEntry::InMemory(Arc::new(Vec::new())));
    let placed = cache_img(&cache, Some(&config), Arc::new(vec![3]), Tier::Disk).unwrap();
    assert_eq!(id_of(Some(placed.entry)), Some(2));
    assert_eq!(placed.file, Some(b"cache/2.bmp".to_vec()));
}

#[test]
fn the_disk_tier_needs_a_configuration() {
    let cache = Cache::new();
    assert_eq!(cache_img(&cache, None, Arc::new(vec![1]), Tier::Disk).err(), Some(Error::NotSetup));
    let mut cache = Cache::new();
    cache.insert(b"a".to_vec(), CacheEntry::OnDisk(3));
    assert_eq!(get_from_cache(b"a", &cache, None).err(), Some(Error::NotSetup));
    assert!(matches!(get_from_cache(b"b", &cache, None), Ok(Cached::Miss)));
}

#[test]
fn a_lookup_names_the_file_of_a_disk_entry() {
    let mut cache = Cache::new();
    cache.insert(b"a".to_vec(), CacheEntry::OnDisk(42));
    let config = config();
    match get_from_cache(b"a", &cache, Some(&config)) {
        Ok(Cached::File(file)) => assert_eq!(file, b"cache/42.bmp".to_vec()),
        other => panic!("unexpected answer {other:?}"),
    }
}

#[test]
fn what_was_cached_is_what_a_lookup_ends_with_in_either_tier() {
    let config = config();
    let mut disk = HashMap::new();
    let mut cache = Cache::new();
    store(&mut cache, Some(&config), &mut disk, b"small.png", &[1, 2, 3], 8_000_000_000).unwrap();
    store(&mut cache, Some(&config), &mut disk, b"big.jpg", &[4, 5, 6, 7], 1_000_000_000).unwrap();
    store(&mut cache, Some(&config), &mut disk, b"empty.gif", &[], 500).unwrap();
    assert_eq!(fetch(&cache, Some(&config), &disk, b"small.png"), Ok(Some(vec![1, 2, 3])));
    assert_eq!(fetch(&cache, Some(&config), &disk, b"big.jpg"), Ok(Some(vec![4, 5, 6, 7])));
    assert_eq!(fetch(&cache, Some(&config), &disk, b"empty.gif"), Ok(Some(Vec::new())));
    assert_eq!(fetch(&cache, Some(&config), &disk, b"other"), Ok(None));
    assert_eq!(disk.get(&b"cache/1.bmp".to_vec()), Some(&vec![4, 5, 6, 7]));
    assert_eq!(disk.get(&b"cache/2.bmp".to_vec()), Some(&Vec::new()));
    assert_eq!(disk.len(), 2);
}

#[test]
fn clear_empties_both_halves_and_lists_the_disk_files() {
    let config = config();
    let mut disk = HashMap::new();
    let mut cache = Cache::new();
    store(&mut cache, Some(&config), &mut disk, b"a", &[1], 1).unwrap();
    store(&mut cache, Some(&config), &mut disk, b"b", &[2], u64::MAX).unwrap();
    store(&mut cache, Some(&config), &mut disk, b"c", &[3], 1).unwrap();
    cache.record_batch(b"abc".to_vec());
    let removals = clear_cache(&mut cache, Some(&config)).unwrap();
    let mut listed: Vec<(Vec<u8>, Vec<u8>)> =
        removals.into_iter().map(|r| (r.path, r.file)).collect();
    listed.sort();
    assert_eq!(
        listed,
        vec![(b"a".to_vec(), b"cache/0.bmp".to_vec()), (b"c".to_vec(), b"cache/2.bmp".to_vec())]
    );
    for (_, file) in &listed {
        assert!(disk.remove(file).is_some());
    }
    assert!(disk.is_empty());
    assert_eq!(cache.len(), 0);
    assert!(cache.lookup(b"a").is_none());
    assert!(cache.lookup(b"b").is_none());
    assert!(!cache.batch_is_fully_cached(b"abc"));
}

#[test]
fn clear_of_a_cache_without_disk_entries_needs_no_configuration() {
    let mut cache = Cache::new();
    cache.insert(b"a".to_vec(), CacheEntry::InMemory(Arc::new(vec![1])));
    assert!(clear_cache(&mut cache, None).unwrap().is_empty());
    assert_eq!(cache.len(), 0);
    assert!(clear_cache(&mut cache, None).unwrap().is_empty());
}

#[test]
fn clear_of_disk_entries_without_configuration_fails_and_still_empties() {
    let mut cache = Cache::new();
    cache.insert(b"a".to_vec(), CacheEntry::OnDisk(0));
    cache.record_batch(b"a".to_vec());
    assert_eq!(clear_cache(&mut cache, None).err(), Some(Error::NotSetup));
    assert_eq!(cache.len(), 0);
    assert!(!cache.batch_is_fully_cached(b"a"));
}

#[test]
fn clear_hands_out_each_disk_entry_once() {
    let mut cache = Cache::new();
    cache.insert(b"a".to_vec(), CacheEntry::OnDisk(5));
    cache.insert(b"b".to_vec(), CacheEntry::OnDisk(5));
    cache.insert(b"c".to_vec(), CacheEntry::InMemory(Arc::new(Vec::new())));
    cache.insert(b"a".to_vec(), CacheEntry::OnDisk(6));
    let mut evicted: Vec<(Vec<u8>, u32)> =
        cache.clear().into_iter().map(|e| (e.path, e.id)).collect();
    evicted.sort();
    assert_eq!(evicted, vec![(b"a".to_vec(), 6), (b"b".to_vec(), 5)]);
    assert!(cache.clear().is_empty());
}

#[test]
fn numbers_start_again_after_a_clear() {
    let config = config();
    let mut disk = HashMap::new();
    let mut cache = Cache::new();
    store(&mut cache, Some(&config), &mut disk, b"big.jpg", &[1], 1_000_000_000).unwrap();
    assert_eq!(id_of(cache.lookup(b"big.jpg")), Some(0));
    clear_cache(&mut cache, Some(&config)).unwrap();
    store(&mut cache, Some(&config), &mut disk, b"next.jpg", &[2], 1_000_000_000).unwrap();
    assert_eq!(id_of(cache.lookup(b"next.jpg")), Some(0));
}

#[test]
fn batches_are_remembered_until_cleared() {
    let mut cache = Cache::new();
    cache.record_batch(b"a.pngb.pngc.png".to_vec());
    assert!(cache.batch_is_fully_cached(b"a.pngb.pngc.png"));
    assert!(!cache.batch_is_fully_cached(b"a.pngb.png"));
    assert!(!cache.batch_is_fully_cached(b"a.pngb.pngc.pngd"));
    cache.record_batch(b"a.pngb.pngc.png".to_vec());
    cache.record_batch(Vec::new());
    cache.insert(b"z".to_vec(), CacheEntry::OnDisk(0));
    assert!(cache.batch_is_fully_cached(b"a.pngb.pngc.png"));
    assert!(cache.batch_is_fully_cached(b""));
    assert_eq!(cache.len(), 1);
    cache.clear();
    assert!(!cache.batch_is_fully_cached(b"a.pngb.pngc.png"));
    assert!(!cache.batch_is_fully_cached(b""));
}
