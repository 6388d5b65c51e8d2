//! Reading commands off the client's stream: a length prefix of four bytes,
//! then that many bytes of command text, in chunks of bounded size.

use vstd::prelude::*;
use crate::bytes::bytes_of;
use crate::command::{split, split_fields};
use crate::error::Error;
use crate::framing::{
    be_bytes, be_value, decode_prefix, frame, frames, lemma_decode_encode, prefix_of,
};

verus! {

/// The most bytes that are asked of the stream at once.
pub const BUFFER_SIZE: usize = 4096;

/// Whether `received` is a whole frame: a prefix and as many bytes as it says.
pub open spec fn complete(received: Seq<u8>) -> bool {
    received.len() >= 4 && received.len() == 4 + be_value(received)
}

/// Whether `received` is the beginning of a frame that lacks at least one byte.
pub open spec fn partial(received: Seq<u8>) -> bool {
    received.len() < 4 || received.len() < 4 + be_value(received)
}

/// The number of bytes to ask the stream for after `received`: what the prefix
/// lacks; then what the text lacks, but no more than `BUFFER_SIZE` at once.
pub open spec fn wanted(received: Seq<u8>) -> nat {
    if received.len() < 4 {
        (4 - received.len()) as nat
    } else if 4 + be_value(received) - received.len() > BUFFER_SIZE {
        BUFFER_SIZE as nat
    } else {
        (4 + be_value(received) - received.len()) as nat
    }
}

/// What the reader says of a chunk.
#[derive(Debug, PartialEq, Eq)]
pub enum Progress {
    /// The frame lacks bytes: read on.
    More,
    /// The frame is whole: these are the fields of its command.
    Command(Vec<Vec<u8>>),
    /// The stream ended between two frames: the client is gone.
    Closed,
}

/// The reader's answer as plain values.
pub enum ProgressView {
    More,
    Command(Seq<Seq<u8>>),
    Closed,
}

impl View for Progress {
    type V = ProgressView;

    open spec fn view(&self) -> ProgressView {
        match self {
            Progress::More => ProgressView::More,
            Progress::Command(fields) => ProgressView::Command(bytes_of(fields@)),
            Progress::Closed => ProgressView::Closed,
        }
    }
}

/// The reader's answer to `chunk` after `received`, and what it has received of
/// the frame after that. An empty chunk is the end of the stream: between two
/// frames the client has closed it, inside a frame it is `Truncated`. A chunk
/// longer than was asked for is an `Overrun`. Any other chunk joins the frame;
/// when that makes the frame whole, its text is split into fields and the next
/// frame begins.
pub open spec fn advanced(received: Seq<u8>, chunk: Seq<u8>) -> (
    Result<ProgressView, Error>,
    Seq<u8>,
) {
    if chunk.len() == 0 {
        if received.len() == 0 {
            (Ok(ProgressView::Closed), received)
        } else {
            (Err(Error::Truncated), received)
        }
    } else if chunk.len() > wanted(received) {
        (Err(Error::Overrun), received)
    } else if complete(received + chunk) {
        (
            Ok(
                ProgressView::Command(
                    split((received + chunk).subrange(4, (received + chunk).len() as int)),
                ),
            ),
            Seq::<u8>::empty(),
        )
    } else {
        (Ok(ProgressView::More), received + chunk)
    }
}

/// The bytes of the frame that is being read.
pub struct CommandReader {
    received: Vec<u8>,
}

impl View for CommandReader {
    type V = Seq<u8>;

    closed spec fn view(&self) -> Seq<u8> {
        self.received@
    }
}

impl CommandReader {
    /// The frame in hand always lacks a byte.
    #[verifier::type_invariant]
    spec fn well_formed(&self) -> bool {
        partial(self.received@)
    }

    /// A reader at the beginning of a frame.
    pub fn new() -> (reader: CommandReader)
        ensures
            reader@ == Seq::<u8>::empty(),
    {
        CommandReader { received: Vec::new() }
    }

    /// The number of bytes to ask the stream for: at least one, at most
    /// `BUFFER_SIZE`.
    pub fn wants(&self) -> (count: usize)
        ensures
            count == wanted(self@),
            1 <= count <= BUFFER_SIZE,
    {
        proof {
            use_type_invariant(self);
        }
        let have: usize = self.received.len();
        if have < 4 {
            4 - have
        } else {
            let length: u64 = prefix_value(&self.received) as u64;
            let rest: u64 = 4 + length - have as u64;
            if rest > BUFFER_SIZE as u64 {
                BUFFER_SIZE
            } else {
                rest as usize
            }
        }
    }

    /// Takes the bytes that a read of the stream gave, an empty chunk standing
    /// for the end of the stream.
    pub fn read_command(&mut self, chunk: &[u8]) -> (progress: Result<Progress, Error>)
        ensures
            final(self)@ == advanced(old(self)@, chunk@).1,
            match progress {
                Ok(p) => advanced(old(self)@, chunk@).0 == Ok::<ProgressView, Error>(p@),
                Err(e) => advanced(old(self)@, chunk@).0 == Err::<ProgressView, Error>(e),
            },
    {
        proof {
            use_type_invariant(&*self);
        }
        if chunk.len() == 0 {
            if self.received.len() == 0 {
                return Ok(Progress::Closed);
            }
            return Err(Error::Truncated);
        }
        if chunk.len() > self.wants() {
            return Err(Error::Overrun);
        }
        let ghost before = self.received@;
        let mut received: Vec<u8> = Vec::new();
        core::mem::swap(&mut self.received, &mut received);
        received.extend_from_slice(chunk);
        assert(received@ =~= before + chunk@);
        proof {
            if before.len() >= 4 {
                assert(be_value(received@) == be_value(before));
            }
        }
        let have: usize = received.len();
        if have >= 4 && (have - 4) as u64 == prefix_value(&received) as u64 {
            let text: &[u8] = vstd::slice::slice_subrange(received.as_slice(), 4, have);
            let fields: Vec<Vec<u8>> = split_fields(text);
            Ok(Progress::Command(fields))
        } else {
            self.received = received;
            Ok(Progress::More)
        }
    }
}

/// The length that the first four bytes of `received` stand for.
fn prefix_value(received: &Vec<u8>) -> (length: u32)
    requires
        received@.len() >= 4,
    ensures
        length == be_value(received@),
{
    let prefix: [u8; 4] = [received[0], received[1], received[2], received[3]];
    decode_prefix(&prefix)
}

/// The answers of the reader to `chunks`, fed in order after `received`, and
/// what it has received of a frame after the last of them.
pub open spec fn fed(received: Seq<u8>, chunks: Seq<Seq<u8>>) -> (
    Seq<Result<ProgressView, Error>>,
    Seq<u8>,
)
    decreases chunks.len(),
{
    if chunks.len() == 0 {
        (Seq::empty(), received)
    } else {
        let before = fed(received, chunks.drop_last());
        let step = advanced(before.1, chunks.last());
        (before.0.push(step.0), step.1)
    }
}

/// Whether `chunks` came from reads of the stream that asked for what the
/// reader wanted: each holds at least one byte, and no more than was wanted
/// when it was read.
pub open spec fn paced(received: Seq<u8>, chunks: Seq<Seq<u8>>) -> bool
    decreases chunks.len(),
{
    chunks.len() == 0 || (paced(received, chunks.drop_last()) && 0 < chunks.last().len()
        <= wanted(fed(received, chunks.drop_last()).1))
}

/// One read inside a frame. After the first `k` bytes of the frame of `text`,
/// a chunk of the next `m` bytes, no more than the reader wanted, never reaches
/// past the frame; it is answered with the fields of `text` when it ends the
/// frame, and with `More` when it does not.
pub proof fn lemma_read_inside_frame(text: Seq<u8>, k: int, m: int)
    requires
        text.len() <= u32::MAX,
        0 <= k < frame(text).len(),
        0 < m <= wanted(frame(text).take(k)),
    ensures
        k + m <= frame(text).len(),
        advanced(frame(text).take(k), frame(text).subrange(k, k + m)) == if k + m == frame(
            text,
        ).len() {
            (Ok::<ProgressView, Error>(ProgressView::Command(split(text))), Seq::<u8>::empty())
        } else {
            (Ok::<ProgressView, Error>(ProgressView::More), frame(text).take(k + m))
        },
{
    let whole = frame(text);
    let prefix = be_bytes(prefix_of(text.len()));
    lemma_decode_encode(prefix_of(text.len()));
    assert(prefix_of(text.len()) == text.len());
    assert(whole.len() == 4 + text.len());
    let received = whole.take(k);
    if k >= 4 {
        assert(be_value(received) == be_value(prefix)) by {
            assert(received[0] == prefix[0] && received[1] == prefix[1] && received[2] == prefix[2]
                && received[3] == prefix[3]);
        }
    }
    assert(k + m <= whole.len());
    let chunk = whole.subrange(k, k + m);
    let all = received + chunk;
    assert(all =~= whole.take(k + m));
    if k + m >= 4 {
        assert(be_value(all) == be_value(prefix)) by {
            assert(all[0] == prefix[0] && all[1] == prefix[1] && all[2] == prefix[2] && all[3]
                == prefix[3]);
        }
    }
    if k + m == whole.len() {
        assert(all =~= whole);
        assert(all.subrange(4, all.len() as int) =~= text);
    }
}

/// The commands among the reader's answers, in order.
pub open spec fn commands(answers: Seq<Result<ProgressView, Error>>) -> Seq<Seq<Seq<u8>>>
    decreases answers.len(),
{
    if answers.len() == 0 {
        Seq::empty()
    } else {
        match answers.last() {
            Ok(ProgressView::Command(fields)) => commands(answers.drop_last()).push(fields),
            _ => commands(answers.drop_last()),
        }
    }
}

/// Whether every answer is `More` or a command: the reader met no end of the
/// stream and no error.
pub open spec fn undisturbed(answers: Seq<Result<ProgressView, Error>>) -> bool {
    forall|j: int|
        0 <= j < answers.len() ==> (#[trigger] answers[j]) is Ok && !(answers[j]->Ok_0 is Closed)
}

/// Where frame `c` begins in the stream of the frames of `texts`.
pub open spec fn frame_start(texts: Seq<Seq<u8>>, c: int) -> int {
    frames(texts.take(c)).len() as int
}

/// Frame `c` lies in the stream where the frames before it end.
proof fn lemma_frame_in_stream(texts: Seq<Seq<u8>>, c: int)
    requires
        0 <= c < texts.len(),
    ensures
        frame_start(texts, 0) == 0,
        frame_start(texts, c + 1) == frame_start(texts, c) + frame(texts[c]).len(),
        frame_start(texts, c + 1) <= frames(texts).len(),
        frame_start(texts, texts.len() as int) == frames(texts).len(),
        frames(texts).subrange(frame_start(texts, c), frame_start(texts, c + 1)) == frame(
            texts[c],
        ),
{
    let upto = texts.take(c + 1);
    let rest = texts.skip(c + 1);
    assert(texts =~= upto + rest);
    crate::framing::lemma_frames_concat(upto, rest);
    assert(upto.drop_last() =~= texts.take(c));
    assert(upto.last() == texts[c]);
    assert(frames(upto) == frames(texts.take(c)) + frame(texts[c]));
    assert(texts.take(texts.len() as int) =~= texts);
    assert(texts.take(0) =~= Seq::<Seq<u8>>::empty());
    assert(frames(texts).subrange(frame_start(texts, c), frame_start(texts, c + 1)) =~= frame(
        texts[c],
    ));
}

/// A stretch of the stream inside frame `c` is the same stretch of the frame.
proof fn lemma_stream_window(texts: Seq<Seq<u8>>, c: int, low: int, high: int)
    requires
        0 <= c < texts.len(),
        frame_start(texts, c) <= low <= high <= frame_start(texts, c + 1),
    ensures
        frames(texts).subrange(low, high) == frame(texts[c]).subrange(
            low - frame_start(texts, c),
            high - frame_start(texts, c),
        ),
{
    lemma_frame_in_stream(texts, c);
    let from = frame_start(texts, c);
    let window = frames(texts).subrange(from, frame_start(texts, c + 1));
    assert(window == frame(texts[c]));
    assert(frames(texts).subrange(low, high) =~= window.subrange(low - from, high - from));
}

/// The answers to a run of chunks and one more are the answers to the run,
/// then the answer to the one; an answer of `More` adds no command, and a
/// command adds itself.
proof fn lemma_fed_one_more(received: Seq<u8>, head: Seq<Seq<u8>>, last: Seq<u8>)
    ensures
        fed(received, head.push(last)).0 == fed(received, head).0.push(
            advanced(fed(received, head).1, last).0,
        ),
        fed(received, head.push(last)).1 == advanced(fed(received, head).1, last).1,
        commands(fed(received, head.push(last)).0) == match advanced(
            fed(received, head).1,
            last,
        ).0 {
            Ok(ProgressView::Command(fields)) => commands(fed(received, head).0).push(fields),
            _ => commands(fed(received, head).0),
        },
        undisturbed(fed(received, head).0) && advanced(fed(received, head).1, last).0 is Ok && !(
        advanced(fed(received, head).1, last).0->Ok_0 is Closed) ==> undisturbed(
            fed(received, head.push(last)).0,
        ),
{
    let chunks = head.push(last);
    assert(chunks.drop_last() =~= head);
    assert(chunks.last() == last);
    let earlier = fed(received, head).0;
    let answers = fed(received, chunks).0;
    assert(answers.drop_last() =~= earlier);
    if undisturbed(earlier) && advanced(fed(received, head).1, last).0 is Ok && !(advanced(
        fed(received, head).1,
        last,
    ).0->Ok_0 is Closed) {
        assert forall|j: int| 0 <= j < answers.len() implies (#[trigger] answers[j]) is Ok && !(
        answers[j]->Ok_0 is Closed) by {
            if j < earlier.len() {
                assert(answers[j] == earlier[j]);
            }
        }
    }
}

/// The reads of the beginning of a stream. Let `chunks`, paced as the reader
/// asks, make up the first bytes of the stream of the frames of `texts`. Then
/// they end inside or at the end of some frame `c`, which is returned: the
/// reader has met no error and no end of the stream, it has handed out the
/// fields of the texts before `c`, in order, and it holds what it has received
/// of frame `c`.
proof fn lemma_read_prefix(texts: Seq<Seq<u8>>, chunks: Seq<Seq<u8>>) -> (c: int)
    requires
        forall|i: int| 0 <= i < texts.len() ==> (#[trigger] texts[i]).len() <= u32::MAX,
        paced(Seq::<u8>::empty(), chunks),
        chunks.flatten().len() <= frames(texts).len(),
        chunks.flatten() == frames(texts).take(chunks.flatten().len() as int),
    ensures
        0 <= c <= texts.len(),
        frame_start(texts, c) <= chunks.flatten().len(),
        c < texts.len() ==> chunks.flatten().len() < frame_start(texts, c + 1),
        fed(Seq::<u8>::empty(), chunks).1 == frames(texts).subrange(
            frame_start(texts, c),
            chunks.flatten().len() as int,
        ),
        undisturbed(fed(Seq::<u8>::empty(), chunks).0),
        commands(fed(Seq::<u8>::empty(), chunks).0) == Seq::new(
            c as nat,
            |i: int| split(texts[i]),
        ),
    decreases chunks.len(),
{
    let start = Seq::<u8>::empty();
    let stream = frames(texts);
    if chunks.len() == 0 {
        assert(chunks.flatten() =~= Seq::<u8>::empty());
        assert(texts.take(0) =~= Seq::<Seq<u8>>::empty());
        if texts.len() > 0 {
            lemma_frame_in_stream(texts, 0);
        }
        assert(stream.subrange(0, 0) =~= start);
        assert(commands(fed(start, chunks).0) =~= Seq::new(0, |i: int| split(texts[i])));
        0
    } else {
        let head = chunks.drop_last();
        let last = chunks.last();
        assert(chunks =~= head.push(last));
        head.lemma_flatten_push(last);
        let joined = chunks.flatten();
        let n = joined.len() as int;
        let before = head.flatten().len() as int;
        assert(joined =~= head.flatten() + last);
        assert(n == before + last.len());
        assert(head.flatten() =~= stream.take(before));
        let c = lemma_read_prefix(texts, head);
        assert(c < texts.len()) by {
            if c == texts.len() {
                if texts.len() > 0 {
                    lemma_frame_in_stream(texts, texts.len() - 1);
                } else {
                    assert(texts.take(0) =~= texts);
                }
            }
        }
        lemma_frame_in_stream(texts, c);
        let text = texts[c];
        let from = frame_start(texts, c);
        let k = before - from;
        let m = last.len() as int;
        let state = fed(start, head).1;
        assert(state == frame(text).take(k)) by {
            lemma_stream_window(texts, c, from, before);
        }
        lemma_read_inside_frame(text, k, m);
        assert(last == frame(text).subrange(k, k + m)) by {
            lemma_stream_window(texts, c, before, n);
            assert(last =~= joined.subrange(before, n));
            assert(joined.subrange(before, n) =~= stream.subrange(before, n));
        }
        lemma_fed_one_more(start, head, last);
        if k + m == frame(text).len() {
            assert(stream.subrange(frame_start(texts, c + 1), n) =~= start);
            assert(commands(fed(start, chunks).0) =~= Seq::new(
                (c + 1) as nat,
                |i: int| split(texts[i]),
            ));
            if c + 1 < texts.len() {
                lemma_frame_in_stream(texts, c + 1);
            }
            c + 1
        } else {
            assert(fed(start, chunks).1 == stream.subrange(from, n)) by {
                lemma_stream_window(texts, c, from, n);
            }
            c
        }

    }
}

/// A stream of commands comes out as it went in. Let the frames of `texts`
/// follow each other on the stream, and let `chunks` be what the reads of the
/// stream gave, every read asking for what the reader wanted, however the
/// stream cut the frames. Then the reader meets no error and no end of the
/// stream; the commands that it hands out are the fields of each text, as many
/// as there are texts and in their order; and it ends at the beginning of a
/// frame.
pub proof fn lemma_read_stream(texts: Seq<Seq<u8>>, chunks: Seq<Seq<u8>>)
    requires
        forall|i: int| 0 <= i < texts.len() ==> (#[trigger] texts[i]).len() <= u32::MAX,
        paced(Seq::<u8>::empty(), chunks),
        chunks.flatten() == frames(texts),
    ensures
        fed(Seq::<u8>::empty(), chunks).1 == Seq::<u8>::empty(),
        undisturbed(fed(Seq::<u8>::empty(), chunks).0),
        commands(fed(Seq::<u8>::empty(), chunks).0) == Seq::new(
            texts.len(),
            |i: int| split(texts[i]),
        ),
{
    let stream = frames(texts);
    assert(stream.take(stream.len() as int) =~= stream);
    let c = lemma_read_prefix(texts, chunks);
    if c < texts.len() {
        lemma_frame_in_stream(texts, c);
    }
    if texts.len() > 0 {
        lemma_frame_in_stream(texts, texts.len() - 1);
    } else {
        assert(texts.take(0) =~= texts);
    }
    assert(stream.subrange(stream.len() as int, stream.len() as int) =~= Seq::<u8>::empty());
}

} // verus!
