use img_process_server::cache::{Cache, CacheEntry};
use img_process_server::config::Configuration;
use img_process_server::error::Error;
use img_process_server::memory::Tier;
use img_process_server::codec::decode_resize_encode;
use img_process_server::pipeline::{get_image, has_remote_prefix, Fetch, ImageStep, Source};
use std::sync::Arc;

fn config(threaded_reads: bool) -> Configuration {
    Configuration {
        disk_cache_dir: b"cache".to_vec(),
        working_dir: b"img".to_vec(),
        threaded_reads,
    }
}

#[test]
fn https_addresses_are_remote() {
    assert!(has_remote_prefix(b"https://host/x.png"));
    assert!(has_remote_prefix(b"https://"));
    assert!(!has_remote_prefix(b"https:/"));
    assert!(!has_remote_prefix(b"http://host/x.png"));
    assert!(!has_remote_prefix(b"HTTPS://host/x.png"));
    assert!(!has_remote_prefix(b" https://host/x.png"));
    assert!(!has_remote_prefix(b"sample.png"));
    assert!(!has_remote_prefix(b""));
}

#[test]
fn a_cached_bitmap_is_sent() {
    let mut cache = Cache::new();
    cache.insert(b"a.png".to_vec(), CacheEntry::InMemory(Arc::new(vec![1, 2, 3])));
    match get_image(&cache, None, b"a.png", 1, 1) {
        Ok(ImageStep::Send(bytes)) => assert_eq!(*bytes, vec![1, 2, 3]),
        other => panic!("unexpected step {other:?}"),
    }
}

#[test]
fn a_bitmap_on_disk_is_read_from_its_file() {
    let mut cache = Cache::new();
    cache.insert(b"big.jpg".to_vec(), CacheEntry::OnDisk(0));
    let config = config(true);
    match get_image(&cache, Some(&config), b"big.jpg", 800, 600) {
        Ok(ImageStep::ReadCached(file)) => assert_eq!(file, b"cache/0.bmp".to_vec()),
        other => panic!("unexpected step {other:?}"),
    }
    assert_eq!(get_image(&cache, None, b"big.jpg", 800, 600).err(), Some(Error::NotSetup));
}

fn source_of(step: Result<ImageStep, Error>) -> Option<Source> {
    match step {
        Ok(ImageStep::Fetch(fetch)) => Some(fetch.source()),
        _ => None,
    }
}

#[test]
fn a_missing_remote_image_is_fetched() {
    let cache = Cache::new();
    assert_eq!(
        source_of(get_image(&cache, None, b"https://host/x.png", 32, 32)),
        Some(Source::Remote)
    );
    let config = config(false);
    assert_eq!(
        source_of(get_image(&cache, Some(&config), b"https://host/x.png", 32, 32)),
        Some(Source::Remote)
    );
}

#[test]
fn a_missing_local_image_is_read_alone_unless_reads_are_threaded() {
    let cache = Cache::new();
    let serial = config(false);
    let threaded = config(true);
    assert_eq!(
        source_of(get_image(&cache, Some(&serial), b"sample.png", 1, 1)),
        Some(Source::Local { exclusive: true })
    );
    assert_eq!(
        source_of(get_image(&cache, Some(&threaded), b"sample.png", 1, 1)),
        Some(Source::Local { exclusive: false })
    );
    assert_eq!(
        source_of(get_image(&cache, Some(&threaded), b"http://host/x.png", 1, 1)),
        Some(Source::Local { exclusive: false })
    );
}

#[test]
fn a_missing_local_image_needs_a_configuration() {
    let cache = Cache::new();
    assert_eq!(get_image(&cache, None, b"sample.png", 1, 1).err(), Some(Error::NotSetup));
}

#[test]
fn a_fetch_carries_the_path() {
    let cache = Cache::new();
    match get_image(&cache, None, b"https://host/x.png", 32, 32) {
        Ok(ImageStep::Fetch(fetch)) => assert_eq!(fetch.path(), &b"https://host/x.png".to_vec()),
        other => panic!("unexpected step {other:?}"),
    }
}

fn png(width: u32, height: u32) -> Vec<u8> {
    let picture = image::DynamicImage::ImageRgb8(image::ImageBuffer::from_pixel(
        width,
        height,
        image::Rgb([1u8, 2, 3]),
    ));
    let mut out = std::io::Cursor::new(Vec::new());
    picture.write_to(&mut out, image::ImageFormat::Png).unwrap();
    out.into_inner()
}

fn fetch(cache: &Cache, config: &Configuration, path: &[u8], width: u32, height: u32) -> Fetch {
    match get_image(cache, Some(config), path, width, height) {
        Ok(ImageStep::Fetch(fetch)) => fetch,
        other => panic!("unexpected step {other:?}"),
    }
}

#[test]
fn a_fetched_image_is_transcoded_to_the_extent_asked_for() {
    let cache = Cache::new();
    let config = config(true);
    let encoded = fetch(&cache, &config, b"a.png", 5, 7).transcode(&png(10, 10)).unwrap();
    let placed = encoded.place(&cache, Some(&config), Tier::Memory).unwrap();
    let bitmap = image::load_from_memory(placed.bitmap()).unwrap();
    assert_eq!((bitmap.width(), bitmap.height()), (5, 7));
    assert_eq!(**placed.bitmap(), decode_resize_encode(&png(10, 10), 5, 7).unwrap());
}

#[test]
fn a_fetched_image_that_is_no_image_fails() {
    let cache = Cache::new();
    let config = config(true);
    assert_eq!(
        fetch(&cache, &config, b"a.png", 5, 7).transcode(b"nothing").err(),
        Some(Error::Decode)
    );
}

#[test]
fn a_bitmap_placed_in_memory_is_committed_as_it_is() {
    let mut cache = Cache::new();
    let config = config(true);
    let encoded = fetch(&cache, &config, b"a.png", 2, 2).transcode(&png(4, 4)).unwrap();
    let placed = encoded.place(&cache, None, Tier::Memory).unwrap();
    assert_eq!(placed.file(), None);
    let expected = placed.bitmap().clone();
    let sent = placed.commit(&mut cache);
    assert!(Arc::ptr_eq(&sent, &expected));
    match get_image(&cache, None, b"a.png", 2, 2) {
        Ok(ImageStep::Send(bytes)) => assert!(Arc::ptr_eq(&bytes, &sent)),
        other => panic!("unexpected step {other:?}"),
    }
    assert_eq!(cache.len(), 1);
}

#[test]
fn a_bitmap_placed_on_disk_names_its_file() {
    let mut cache = Cache::new();
    cache.insert(b"zero".to_vec(), CacheEntry::OnDisk(0));
    let config = config(true);
    let encoded = fetch(&cache, &config, b"a.png", 2, 2).transcode(&png(4, 4)).unwrap();
    let placed = encoded.place(&cache, Some(&config), Tier::Disk).unwrap();
    assert_eq!(placed.file(), Some(&b"cache/1.bmp".to_vec()));
    placed.commit(&mut cache);
    assert!(matches!(cache.lookup(b"a.png"), Some(CacheEntry::OnDisk(1))));
    match get_image(&cache, Some(&config), b"a.png", 2, 2) {
        Ok(ImageStep::ReadCached(file)) => assert_eq!(file, b"cache/1.bmp".to_vec()),
        other => panic!("unexpected step {other:?}"),
    }
}

#[test]
fn a_bitmap_cannot_go_to_disk_before_setup() {
    let cache = Cache::new();
    match get_image(&cache, None, b"https://host/x.png", 2, 2) {
        Ok(ImageStep::Fetch(fetch)) => {
            let encoded = fetch.transcode(&png(4, 4)).unwrap();
            assert_eq!(encoded.place(&cache, None, Tier::Disk).err(), Some(Error::NotSetup));
        }
        other => panic!("unexpected step {other:?}"),
    }
    assert_eq!(cache.len(), 0);
}
