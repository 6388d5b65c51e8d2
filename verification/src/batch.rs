//! Batches: the fingerprint that marks a batch as fully cached, the split of a
//! batch into one chunk per worker, and the reply that a worker builds for its
//! chunk.

use std::sync::Arc;
use vstd::prelude::*;
use crate::bytes::{bytes_of, copy_bytes, lists_of, shared_bytes_of};
use crate::cache::{Cache, EntryView};
use crate::command::CommandView;
use crate::framing::{
    frame, frames, lemma_frames_concat, lemma_frames_round_trip, send_image, unframed,
};

verus! {

/// Number of workers that a batch is split over.
pub const GETS_THREAD_COUNT: usize = 12;

/// The fingerprint of a batch: its paths one after the other, in order, with
/// nothing between them.
pub open spec fn fingerprint(paths: Seq<Seq<u8>>) -> Seq<u8> {
    paths.flatten()
}

/// The length of every chunk but the last when `len` items are split over
/// `workers` workers: `len / workers`, and 1 where there are fewer items than
/// workers.
pub open spec fn chunk_size(len: nat, workers: nat) -> nat {
    if len / workers == 0 {
        1
    } else {
        len / workers
    }
}

/// The number of chunks: one per worker, and one per item where there are fewer
/// items than workers.
pub open spec fn chunk_count(len: nat, workers: nat) -> nat {
    if len < workers {
        len
    } else {
        workers
    }
}

/// Where chunk `i` begins.
pub open spec fn chunk_start(len: nat, workers: nat, i: int) -> int {
    i * chunk_size(len, workers)
}

/// Where chunk `i` ends: the last chunk takes all that is left.
pub open spec fn chunk_end(len: nat, workers: nat, i: int) -> int {
    if i + 1 == chunk_count(len, workers) {
        len as int
    } else {
        (i + 1) * chunk_size(len, workers)
    }
}

/// The chunks that `items` are split into for `workers` workers.
pub open spec fn chunks<T>(items: Seq<T>, workers: nat) -> Seq<Seq<T>> {
    Seq::new(
        chunk_count(items.len(), workers),
        |i: int|
            items.subrange(
                chunk_start(items.len(), workers, i),
                chunk_end(items.len(), workers, i),
            ),
    )
}

/// Every chunk lies inside the list, begins where the one before it ended, and
/// holds at least one item; the first begins the list and the last ends it.
pub proof fn lemma_chunk_bounds(len: nat, workers: nat, i: int)
    requires
        workers > 0,
        0 <= i < chunk_count(len, workers),
    ensures
        0 <= chunk_start(len, workers, i) < chunk_end(len, workers, i) <= len,
        i > 0 ==> chunk_start(len, workers, i) == chunk_end(len, workers, i - 1),
        chunk_start(len, workers, 0) == 0,
        chunk_end(len, workers, chunk_count(len, workers) - 1) == len,
{
    let q = chunk_size(len, workers);
    let w = workers as int;
    let n = len as int;
    if len < workers {
        assert(n / w == 0) by (nonlinear_arith)
            requires
                0 <= n < w,
        ;
        assert(q == 1);
        assert(i * 1 == i && (i + 1) * 1 == i + 1);
    } else {
        assert(n / w >= 1 && (n / w) * w <= n) by (nonlinear_arith)
            requires
                0 < w <= n,
        ;
        let qi = q as int;
        assert(qi == n / w);
        assert(i * qi >= 0 && i * qi < (i + 1) * qi && (i + 1) * qi <= w * qi && (i + 1) * qi == i
            * qi + qi && (i - 1 + 1) * qi == i * qi) by (nonlinear_arith)
            requires
                0 <= i < w,
                qi >= 1,
        ;
        assert(w * qi == qi * w) by (nonlinear_arith);
    }
    assert(0 * q == 0);
}

/// Splitting keeps every item, in order: the chunks, one after the other, are
/// the list; there is one chunk per worker, or one per item where the items are
/// fewer; and no chunk is empty.
pub proof fn lemma_chunks_cover<T>(items: Seq<T>, workers: nat)
    requires
        workers > 0,
    ensures
        chunks(items, workers).flatten() == items,
        chunks(items, workers).len() == if items.len() < workers {
            items.len()
        } else {
            workers
        },
        forall|i: int|
            0 <= i < chunks(items, workers).len() ==> (#[trigger] chunks(items, workers)[i]).len()
                > 0,
{
    let parts = chunks(items, workers);
    let len = items.len();
    assert forall|i: int| 0 <= i < parts.len() implies (#[trigger] parts[i]).len() > 0 by {
        lemma_chunk_bounds(len, workers, i);
    }
    if parts.len() == 0 {
        assert(items =~= Seq::<T>::empty());
        assert(parts.flatten() =~= items);
    } else {
        lemma_chunks_prefix(items, workers, parts.len() as int);
        lemma_chunk_bounds(len, workers, parts.len() - 1);
        assert(parts.take(parts.len() as int) =~= parts);
        assert(items.subrange(0, len as int) =~= items);
    }
}

/// The first `k` chunks, one after the other, are the list up to the end of
/// chunk `k - 1`.
proof fn lemma_chunks_prefix<T>(items: Seq<T>, workers: nat, k: int)
    requires
        workers > 0,
        0 < k <= chunks(items, workers).len(),
    ensures
        chunks(items, workers).take(k).flatten() == items.subrange(
            0,
            chunk_end(items.len(), workers, k - 1),
        ),
    decreases k,
{
    let parts = chunks(items, workers);
    let len = items.len();
    lemma_chunk_bounds(len, workers, k - 1);
    let head = parts.take(k - 1);
    assert(parts.take(k) =~= head.push(parts[k - 1]));
    head.lemma_flatten_push(parts[k - 1]);
    if k == 1 {
        assert(head =~= Seq::<Seq<T>>::empty());
        assert(head.flatten() =~= Seq::<T>::empty());
        assert(parts.take(k).flatten() =~= items.subrange(0, chunk_end(len, workers, 0)));
    } else {
        lemma_chunks_prefix(items, workers, k - 1);
        lemma_chunk_bounds(len, workers, k - 2);
        assert(parts.take(k).flatten() =~= items.subrange(0, chunk_end(len, workers, k - 1)));
    }
}

/// The replies that workers build for the parts of a list of payloads.
pub open spec fn replies(parts: Seq<Seq<Seq<u8>>>) -> Seq<Seq<u8>> {
    Seq::new(parts.len(), |i: int| frames(parts[i]))
}

/// The replies for the parts of a list, one after the other, are the frames of
/// the whole list.
pub proof fn lemma_replies_join(parts: Seq<Seq<Seq<u8>>>)
    ensures
        replies(parts).flatten() == frames(parts.flatten()),
    decreases parts.len(),
{
    if parts.len() == 0 {
        assert(replies(parts) =~= Seq::<Seq<u8>>::empty());
        assert(replies(parts).flatten() =~= frames(parts.flatten()));
    } else {
        let head = parts.drop_last();
        lemma_replies_join(head);
        assert(replies(parts) =~= replies(head).push(frames(parts.last())));
        replies(head).lemma_flatten_push(frames(parts.last()));
        assert(parts =~= head.push(parts.last()));
        head.lemma_flatten_push(parts.last());
        lemma_frames_concat(head.flatten(), parts.last());
    }
}

/// A batch comes back in the order it was asked in. Whatever the bitmaps of its
/// images are, and however many workers share them: the replies of the workers,
/// each the frames of its own chunk, written one after the other in the order
/// of the chunks, are the frames of all the bitmaps in the order of the request.
pub proof fn lemma_batch_order(payloads: Seq<Seq<u8>>, workers: nat)
    requires
        workers > 0,
    ensures
        replies(chunks(payloads, workers)).flatten() == frames(payloads),
{
    lemma_replies_join(chunks(payloads, workers));
    lemma_chunks_cover(payloads, workers);
}

/// The fingerprint of `paths`.
pub fn batch_fingerprint(paths: &Vec<Vec<u8>>) -> (key: Vec<u8>)
    ensures
        key@ == fingerprint(bytes_of(paths@)),
{
    let mut key: Vec<u8> = Vec::new();
    let mut i: usize = 0;
    while i < paths.len()
        invariant
            i <= paths@.len(),
            key@ == fingerprint(bytes_of(paths@).take(i as int)),
        decreases paths@.len() - i,
    {
        let ghost done = bytes_of(paths@).take(i as int);
        key.extend_from_slice(paths[i].as_slice());
        proof {
            assert(bytes_of(paths@).take(i + 1) =~= done.push(paths@[i as int]@));
            done.lemma_flatten_push(paths@[i as int]@);
            assert(key@ =~= done.flatten() + paths@[i as int]@);
        }
        i = i + 1;
    }
    assert(bytes_of(paths@).take(paths@.len() as int) =~= bytes_of(paths@));
    key
}

/// Splits `paths` into the chunks for `workers` workers.
pub fn partition(paths: &Vec<Vec<u8>>, workers: usize) -> (parts: Vec<Vec<Vec<u8>>>)
    requires
        workers > 0,
    ensures
        lists_of(parts@) == chunks(bytes_of(paths@), workers as nat),
{
    let len: usize = paths.len();
    let size: usize = if len / workers == 0 {
        1
    } else {
        len / workers
    };
    let count: usize = if len < workers {
        len
    } else {
        workers
    };
    let mut parts: Vec<Vec<Vec<u8>>> = Vec::new();
    let mut i: usize = 0;
    while i < count
        invariant
            workers > 0,
            len == paths@.len(),
            size == chunk_size(len as nat, workers as nat),
            count == chunk_count(len as nat, workers as nat),
            i <= count,
            parts@.len() == i,
            forall|k: int|
                0 <= k < i ==> bytes_of(#[trigger] parts@[k]@) == chunks(
                    bytes_of(paths@),
                    workers as nat,
                )[k],
        decreases count - i,
    {
        proof {
            lemma_chunk_bounds(len as nat, workers as nat, i as int);
        }
        let start: usize = i * size;
        let end: usize = if i + 1 == count {
            len
        } else {
            (i + 1) * size
        };
        let mut part: Vec<Vec<u8>> = Vec::new();
        let mut j: usize = start;
        while j < end
            invariant
                start <= j <= end <= paths@.len(),
                bytes_of(part@) == bytes_of(paths@).subrange(start as int, j as int),
            decreases end - j,
        {
            let ghost before = part@;
            part.push(copy_bytes(paths[j].as_slice()));
            proof {
                let wanted = bytes_of(paths@).subrange(start as int, j + 1);
                let sofar = bytes_of(paths@).subrange(start as int, j as int);
                assert(bytes_of(before) == sofar);
                assert(bytes_of(before).len() == before.len());
                assert(sofar.len() == j - start);
                assert(part@.len() == before.len() + 1);
                assert(bytes_of(part@).len() == wanted.len());
                assert forall|k: int| 0 <= k < wanted.len() implies bytes_of(part@)[k]
                    == wanted[k] by {
                    if k < before.len() {
                        assert(bytes_of(before)[k] == before[k]@);
                        assert(sofar[k] == wanted[k]);
                        assert(part@[k] == before[k]);
                    }
                }
                assert(bytes_of(part@) =~= wanted);
            }
            j = j + 1;
        }
        parts.push(part);
        i = i + 1;
    }
    assert(lists_of(parts@) =~= chunks(bytes_of(paths@), workers as nat));
    parts
}

/// How a batch is served.
#[derive(Debug)]
pub enum BatchPlan {
    /// Every path is known to be cached: the caller runs the single-image
    /// pipeline for each path, in order, straight onto the stream.
    Cached,
    /// The paths go to the workers, chunk `i` to worker `i`; the replies are
    /// written to the stream in the order of the chunks, and the fingerprint is
    /// recorded once all of them are.
    Dispatch(Vec<Vec<Vec<u8>>>),
}

/// A batch, ready to be served.
#[derive(Debug)]
pub struct Batch {
    /// The fingerprint of its paths.
    pub fingerprint: Vec<u8>,
    /// How to serve it.
    pub plan: BatchPlan,
}

/// Whether a batch of `paths` goes to the workers while the fingerprints in
/// `known` are recorded: it does unless its own fingerprint is among them.
pub open spec fn dispatched(known: Set<Seq<u8>>, paths: Seq<Seq<u8>>) -> bool {
    !known.contains(fingerprint(paths))
}

/// Plans a batch. One whose fingerprint was recorded is served from the cache;
/// any other is split over the workers, whether or not some of its paths are
/// cached. The caller holds the cache for reading during the call only.
pub fn gets_images(cache: &Cache, paths: &Vec<Vec<u8>>) -> (batch: Batch)
    ensures
        batch.fingerprint@ == fingerprint(bytes_of(paths@)),
        match batch.plan {
            BatchPlan::Cached => !dispatched(cache.fingerprints(), bytes_of(paths@)),
            BatchPlan::Dispatch(parts) => dispatched(cache.fingerprints(), bytes_of(paths@))
                && lists_of(parts@) == chunks(bytes_of(paths@), GETS_THREAD_COUNT as nat),
        },
{
    let key: Vec<u8> = batch_fingerprint(paths);
    if cache.batch_is_fully_cached(key.as_slice()) {
        Batch { fingerprint: key, plan: BatchPlan::Cached }
    } else {
        Batch { fingerprint: key, plan: BatchPlan::Dispatch(partition(paths, GETS_THREAD_COUNT)) }
    }
}

/// A batch goes to the workers once. After its fingerprint has been recorded,
/// the same paths in the same order are served from the cache, whatever other
/// batches are recorded after it, until the cache is cleared.
pub proof fn lemma_recorded_batch_is_served_from_cache(
    known: Set<Seq<u8>>,
    paths: Seq<Seq<u8>>,
    later: Seq<u8>,
)
    ensures
        !dispatched(known.insert(fingerprint(paths)), paths),
        !dispatched(known.insert(fingerprint(paths)).insert(later), paths),
        dispatched(Set::<Seq<u8>>::empty(), paths),
{
}

/// Whether the index holds every path of every batch in `batches`.
pub open spec fn covered(index: Map<Seq<u8>, EntryView>, batches: Set<Seq<Seq<u8>>>) -> bool {
    forall|batch: Seq<Seq<u8>>, i: int|
        batches.contains(batch) && 0 <= i < batch.len() ==> index.contains_key(
            #[trigger] batch[i],
        )
}

/// What a recorded fingerprint promises holds as long as batches are recorded
/// when all their paths are cached: the index then holds every path of every
/// recorded batch, whatever is inserted later, until the cache is cleared,
/// which forgets the batches with the paths.
pub proof fn lemma_recorded_batches_stay_covered(
    index: Map<Seq<u8>, EntryView>,
    batches: Set<Seq<Seq<u8>>>,
    paths: Seq<Seq<u8>>,
    path: Seq<u8>,
    entry: EntryView,
)
    requires
        covered(index, batches),
        forall|i: int| 0 <= i < paths.len() ==> index.contains_key(#[trigger] paths[i]),
    ensures
        covered(index, batches.insert(paths)),
        covered(index.insert(path, entry), batches.insert(paths)),
        covered(Map::<Seq<u8>, EntryView>::empty(), Set::<Seq<Seq<u8>>>::empty()),
{
}

/// Builds a worker's reply for its chunk: the frame of each bitmap, in the
/// order of the chunk's paths.
pub fn gets_thread(images: &Vec<Arc<Vec<u8>>>) -> (reply: Vec<u8>)
    ensures
        reply@ == frames(shared_bytes_of(images@)),
{
    let mut reply: Vec<u8> = Vec::new();
    let mut i: usize = 0;
    while i < images.len()
        invariant
            i <= images@.len(),
            reply@ == frames(shared_bytes_of(images@).take(i as int)),
        decreases images@.len() - i,
    {
        send_image(&images[i], &mut reply);
        proof {
            let done = shared_bytes_of(images@).take(i + 1);
            assert(done.drop_last() =~= shared_bytes_of(images@).take(i as int));
            assert(done.last() == images@[i as int]@);
        }
        i = i + 1;
    }
    assert(shared_bytes_of(images@).take(images@.len() as int) =~= shared_bytes_of(images@));
    reply
}

/// The paths that a command asks bitmaps for, in the order of the answer.
pub open spec fn asked(command: CommandView) -> Seq<Seq<u8>> {
    match command {
        CommandView::Get { path, .. } => seq![path],
        CommandView::Gets { paths, .. } => paths,
        _ => Seq::empty(),
    }
}

/// Every command is answered with whole frames, one for each image that it asks
/// for: one for `get`, as many as it has paths for `gets`, none for any other.
/// Let `payloads` be the bitmaps of the images asked for, in order, each of a
/// length that fits a prefix. What is written for them, straight onto the
/// stream or through the replies of any number of workers, is a stream of whole
/// frames that holds exactly these bitmaps.
pub proof fn lemma_answer_is_framed(command: CommandView, payloads: Seq<Seq<u8>>, workers: nat)
    requires
        workers > 0,
        payloads.len() == asked(command).len(),
        forall|i: int| 0 <= i < payloads.len() ==> (#[trigger] payloads[i]).len() <= u32::MAX,
    ensures
        unframed(frames(payloads)) == Some(payloads),
        unframed(replies(chunks(payloads, workers)).flatten()) == Some(payloads),
        command is Get ==> payloads.len() == 1 && frames(payloads) == frame(payloads[0]),
        command is Gets ==> payloads.len() == command->Gets_paths.len(),
        !(command is Get) && !(command is Gets) ==> frames(payloads) == Seq::<u8>::empty(),
{
    lemma_frames_round_trip(payloads);
    lemma_batch_order(payloads, workers);
    if command is Get {
        assert(payloads.drop_last() =~= Seq::<Seq<u8>>::empty());
        assert(frames(payloads.drop_last()) =~= Seq::<u8>::empty());
        assert(frames(payloads) =~= frame(payloads[0]));
    }
}

} // verus!
