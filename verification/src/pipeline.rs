//! The single-image pipeline. A request for an image is answered from the
//! cache where the cache has it. Where it has not, the source is fetched,
//! transcoded to a bitmap of the extent asked for, placed in a tier of the
//! cache, and sent. The caller does the reading and writing; each stage hands
//! it the next one, so that the stages can only be run in this order.

use image::DynamicImage;
use std::sync::Arc;
use vstd::prelude::*;
use crate::bytes::{copy_bytes, share};
use crate::cache::{
    cache_img, cached, disk_after_write, get_from_cache, placement, Cache, CacheEntry, Cached,
    CachedView, EntryView, PlacementView,
};
use crate::codec::{decode_resize_encode, encoded, extent_of, transcoded};
use crate::config::{view_of, Configuration, ConfigurationView};
use crate::error::Error;
use crate::memory::Tier;

verus! {

/// Where the source of an image is fetched from.
#[derive(Clone, Copy, Debug, PartialEq, Eq, Structural)]
pub enum Source {
    /// From the HTTPS address that the path is.
    Remote,
    /// From the local file that the path names. Where `exclusive` is set, the
    /// file is read while the cache is held for writing, so that no two such
    /// reads run at once.
    Local { exclusive: bool },
}

/// A request whose source has to be fetched.
#[derive(Debug)]
pub struct Fetch {
    path: Vec<u8>,
    width: u32,
    height: u32,
    source: Source,
}

/// A fetch as plain values.
pub struct FetchView {
    pub path: Seq<u8>,
    pub width: u32,
    pub height: u32,
    pub source: Source,
}

impl View for Fetch {
    type V = FetchView;

    closed spec fn view(&self) -> FetchView {
        FetchView { path: self.path@, width: self.width, height: self.height, source: self.source }
    }
}

/// What the caller does next to get the bitmap of a requested image.
#[derive(Debug)]
pub enum ImageStep {
    /// The cache holds the bitmap in memory: send it.
    Send(Arc<Vec<u8>>),
    /// The cache holds the bitmap in this file: read the file, and send what it
    /// holds.
    ReadCached(Vec<u8>),
    /// The cache has nothing: fetch the source, and go on with `transcode`.
    Fetch(Fetch),
}

/// A step as plain values.
pub enum ImageStepView {
    Send(Seq<u8>),
    ReadCached(Seq<u8>),
    Fetch(FetchView),
}

impl View for ImageStep {
    type V = ImageStepView;

    open spec fn view(&self) -> ImageStepView {
        match self {
            ImageStep::Send(bytes) => ImageStepView::Send(bytes@),
            ImageStep::ReadCached(file) => ImageStepView::ReadCached(file@),
            ImageStep::Fetch(fetch) => ImageStepView::Fetch(fetch@),
        }
    }
}

/// The bytes of `https://`.
pub open spec fn remote_prefix() -> Seq<u8> {
    seq![0x68u8, 0x74u8, 0x74u8, 0x70u8, 0x73u8, 0x3au8, 0x2fu8, 0x2fu8]
}

/// Whether `path` is an HTTPS address: it begins with `https://`.
pub open spec fn is_remote(path: Seq<u8>) -> bool {
    path.len() >= 8 && path.subrange(0, 8) == remote_prefix()
}

/// The step that a request for `path` begins with. A path in the cache is
/// answered from it. Any other is fetched: over HTTPS where it begins with
/// `https://`, else from a local file, which needs the configuration to say
/// whether such reads may run at once, and fails with `NotSetup` without it.
pub open spec fn image_step(
    index: Map<Seq<u8>, EntryView>,
    config: Option<ConfigurationView>,
    path: Seq<u8>,
    width: u32,
    height: u32,
) -> Result<ImageStepView, Error> {
    match cached(index, config, path) {
        Err(e) => Err(e),
        Ok(CachedView::Bytes(bytes)) => Ok(ImageStepView::Send(bytes)),
        Ok(CachedView::File(file)) => Ok(ImageStepView::ReadCached(file)),
        Ok(CachedView::Miss) => if is_remote(path) {
            Ok(ImageStepView::Fetch(FetchView { path, width, height, source: Source::Remote }))
        } else {
            match config {
                None => Err(Error::NotSetup),
                Some(c) => Ok(
                    ImageStepView::Fetch(
                        FetchView {
                            path,
                            width,
                            height,
                            source: Source::Local { exclusive: !c.threaded_reads },
                        },
                    ),
                ),
            }
        },
    }
}

/// Whether `path` begins with `https://`.
pub fn has_remote_prefix(path: &[u8]) -> (remote: bool)
    ensures
        remote == is_remote(path@),
{
    if path.len() < 8 {
        return false;
    }
    let matches: bool = path[0] == 0x68 && path[1] == 0x74 && path[2] == 0x74 && path[3] == 0x70
        && path[4] == 0x73 && path[5] == 0x3a && path[6] == 0x2f && path[7] == 0x2f;
    proof {
        let head = path@.subrange(0, 8);
        if matches {
            assert(head =~= remote_prefix());
        } else {
            assert(head[0] == path@[0] && head[1] == path@[1] && head[2] == path@[2] && head[3]
                == path@[3] && head[4] == path@[4] && head[5] == path@[5] && head[6] == path@[6]
                && head[7] == path@[7]);
        }
    }
    matches
}

/// Begins a request for the image at `path`, of `width` by `height` pixels:
/// looks it up, and says how to fetch it where the cache has nothing. The
/// caller holds the cache for reading during the call only.
pub fn get_image(
    cache: &Cache,
    config: Option<&Configuration>,
    path: &[u8],
    width: u32,
    height: u32,
) -> (step: Result<ImageStep, Error>)
    ensures
        match step {
            Ok(s) => image_step(cache.index(), view_of(config), path@, width, height) == Ok::<
                ImageStepView,
                Error,
            >(s@),
            Err(e) => image_step(cache.index(), view_of(config), path@, width, height) == Err::<
                ImageStepView,
                Error,
            >(e),
        },
{
    match get_from_cache(path, cache, config) {
        Err(e) => Err(e),
        Ok(Cached::Bytes(bytes)) => Ok(ImageStep::Send(bytes)),
        Ok(Cached::File(file)) => Ok(ImageStep::ReadCached(file)),
        Ok(Cached::Miss) => {
            let source: Source = if has_remote_prefix(path) {
                Source::Remote
            } else {
                match config {
                    None => {
                        return Err(Error::NotSetup);
                    },
                    Some(c) => Source::Local { exclusive: !c.threaded_reads },
                }
            };
            Ok(ImageStep::Fetch(Fetch { path: copy_bytes(path), width, height, source }))
        },
    }
}

/// The bitmap of a fetched image, not yet in the cache.
#[derive(Debug)]
pub struct Encoded {
    path: Vec<u8>,
    bitmap: Arc<Vec<u8>>,
}

/// An encoded image as plain values.
pub struct EncodedView {
    pub path: Seq<u8>,
    pub bitmap: Seq<u8>,
}

impl View for Encoded {
    type V = EncodedView;

    closed spec fn view(&self) -> EncodedView {
        EncodedView { path: self.path@, bitmap: self.bitmap@ }
    }
}

/// A bitmap with its place in the cache decided: what is left is to write its
/// file, where it has one, and to commit it.
#[derive(Debug)]
pub struct Placed {
    path: Vec<u8>,
    bitmap: Arc<Vec<u8>>,
    entry: CacheEntry,
    file: Option<Vec<u8>>,
}

/// A placed image as plain values.
pub struct PlacedView {
    pub path: Seq<u8>,
    pub bitmap: Seq<u8>,
    pub placement: PlacementView,
}

impl View for Placed {
    type V = PlacedView;

    closed spec fn view(&self) -> PlacedView {
        PlacedView {
            path: self.path@,
            bitmap: self.bitmap@,
            placement: PlacementView {
                entry: self.entry@,
                file: match self.file {
                    Some(f) => Some(f@),
                    None => None,
                },
            },
        }
    }
}

impl Fetch {
    /// The path to fetch.
    pub fn path(&self) -> (path: &Vec<u8>)
        ensures
            path@ == self@.path,
    {
        &self.path
    }

    /// Where to fetch it from.
    pub fn source(&self) -> (source: Source)
        ensures
            source == self@.source,
    {
        self.source
    }

    /// Takes the source bytes that the fetch gave: decodes them, resizes the
    /// image to the extent that was asked for unless it has it already, and
    /// encodes it as a bitmap, which is then that of an image of exactly that
    /// extent. No lock is needed, and none should be held.
    pub fn transcode(self, raw: &[u8]) -> (done: Result<Encoded, Error>)
        ensures
            match done {
                Ok(e) => e@.path == self@.path && transcoded(raw@, self@.width, self@.height)
                    == Ok::<Seq<u8>, Error>(e@.bitmap),
                Err(e) => transcoded(raw@, self@.width, self@.height) == Err::<Seq<u8>, Error>(e),
            },
            done matches Ok(e) ==> exists|sized: DynamicImage|
                extent_of(sized) == (self@.width, self@.height) && #[trigger] encoded(sized)
                    == Ok::<Seq<u8>, Error>(e@.bitmap),
    {
        match decode_resize_encode(raw, self.width, self.height) {
            Ok(bitmap) => Ok(Encoded { path: self.path, bitmap: Arc::new(bitmap) }),
            Err(e) => Err(e),
        }
    }
}

impl Encoded {
    /// Decides where the bitmap goes, for the tier that the memory probe chose
    /// before the cache was locked. The caller holds the cache for writing from
    /// this call until the bitmap is committed.
    pub fn place(self, cache: &Cache, config: Option<&Configuration>, tier: Tier) -> (placed:
        Result<Placed, Error>)
        ensures
            match placed {
                Ok(p) => p@.path == self@.path && p@.bitmap == self@.bitmap && placement(
                    cache.index().len(),
                    view_of(config),
                    self@.bitmap,
                    tier,
                ) == Ok::<PlacementView, Error>(p@.placement),
                Err(e) => placement(cache.index().len(), view_of(config), self@.bitmap, tier)
                    == Err::<PlacementView, Error>(e),
            },
    {
        let shared: Arc<Vec<u8>> = share(&self.bitmap);
        match cache_img(cache, config, shared, tier) {
            Ok(p) => Ok(
                Placed { path: self.path, bitmap: self.bitmap, entry: p.entry, file: p.file },
            ),
            Err(e) => Err(e),
        }
    }
}

impl Placed {
    /// The file to write the bitmap to before committing, if it goes to disk.
    pub fn file(&self) -> (file: Option<&Vec<u8>>)
        ensures
            match file {
                Some(f) => self@.placement.file == Some(f@),
                None => self@.placement.file is None,
            },
    {
        match &self.file {
            Some(f) => Some(f),
            None => None,
        }
    }

    /// The bitmap.
    pub fn bitmap(&self) -> (bitmap: &Arc<Vec<u8>>)
        ensures
            bitmap@ == self@.bitmap,
    {
        &self.bitmap
    }

    /// Puts the bitmap into the index, once its file, if it has one, has been
    /// written. Returns the bitmap, to be sent.
    pub fn commit(self, cache: &mut Cache) -> (bitmap: Arc<Vec<u8>>)
        ensures
            bitmap@ == self@.bitmap,
            final(cache).index() == old(cache).index().insert(self@.path, self@.placement.entry),
            final(cache).fingerprints() == old(cache).fingerprints(),
    {
        let _ = cache.insert(self.path, self.entry);
        self.bitmap
    }
}

/// An image is fetched once. After its bitmap has been placed and committed,
/// the next request for the same path begins with the bitmap itself, where it
/// went into memory, or with the file that holds it, where it went to disk: it
/// does not fetch the source again.
pub proof fn lemma_cached_image_is_not_fetched_again(
    index: Map<Seq<u8>, EntryView>,
    config: Option<ConfigurationView>,
    disk: Map<Seq<u8>, Seq<u8>>,
    path: Seq<u8>,
    bitmap: Seq<u8>,
    tier: Tier,
    width: u32,
    height: u32,
)
    requires
        placement(index.len(), config, bitmap, tier) is Ok,
    ensures
        ({
            let placed = placement(index.len(), config, bitmap, tier)->Ok_0;
            let next = image_step(index.insert(path, placed.entry), config, path, width, height);
            match tier {
                Tier::Memory => next == Ok::<ImageStepView, Error>(ImageStepView::Send(bitmap)),
                Tier::Disk => placed.file is Some && next == Ok::<ImageStepView, Error>(
                    ImageStepView::ReadCached(placed.file->Some_0),
                ) && disk_after_write(disk, placed, bitmap).contains_key(placed.file->Some_0)
                    && disk_after_write(disk, placed, bitmap)[placed.file->Some_0] == bitmap,
            }
        }),
{
}

} // verus!
