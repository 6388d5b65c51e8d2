//! A connection, seen whole: the commands that come in on the stream, and the
//! frames that go out for them.

use vstd::prelude::*;
use crate::batch::{asked, lemma_answer_is_framed, lemma_replies_join, replies};
use crate::command::{command_of, process_command, split, Command, CommandView};
use crate::error::Error;
use crate::framing::{frame, frames, lemma_frames_round_trip, unframed};
use crate::reader::{
    advanced, commands, fed, lemma_read_stream, paced, undisturbed, CommandReader, Progress,
    ProgressView,
};

verus! {

/// What one read of the stream leads to.
#[derive(Debug, PartialEq, Eq)]
pub enum Turn {
    /// The frame lacks bytes: read on.
    More,
    /// A command has come in whole: serve it, then read on.
    Serve(Command),
    /// The stream ended between two frames: the client is gone.
    Closed,
}

/// A turn as plain values.
pub enum TurnView {
    More,
    Serve(CommandView),
    Closed,
}

impl View for Turn {
    type V = TurnView;

    open spec fn view(&self) -> TurnView {
        match self {
            Turn::More => TurnView::More,
            Turn::Serve(command) => TurnView::Serve(command@),
            Turn::Closed => TurnView::Closed,
        }
    }
}

/// The turn that the answer of the reader leads to: the fields of a whole frame
/// are read as a command.
pub open spec fn turn_of(answer: Result<ProgressView, Error>) -> Result<TurnView, Error> {
    match answer {
        Err(e) => Err(e),
        Ok(ProgressView::More) => Ok(TurnView::More),
        Ok(ProgressView::Closed) => Ok(TurnView::Closed),
        Ok(ProgressView::Command(fields)) => match command_of(fields) {
            Ok(command) => Ok(TurnView::Serve(command)),
            Err(e) => Err(e),
        },
    }
}

/// One turn of the connection loop: takes the bytes that a read of the stream
/// gave, an empty chunk standing for the end of the stream, and says what to do
/// next. An error of the transport family ends the connection; an error of the
/// parse family ends the command only, and the reader is ready for the next
/// frame.
pub fn read_loop(reader: &mut CommandReader, chunk: &[u8]) -> (turn: Result<Turn, Error>)
    ensures
        final(reader)@ == advanced(old(reader)@, chunk@).1,
        match turn {
            Ok(t) => turn_of(advanced(old(reader)@, chunk@).0) == Ok::<TurnView, Error>(t@),
            Err(e) => turn_of(advanced(old(reader)@, chunk@).0) == Err::<TurnView, Error>(e),
        },
{
    match reader.read_command(chunk) {
        Err(e) => Err(e),
        Ok(Progress::More) => Ok(Turn::More),
        Ok(Progress::Closed) => Ok(Turn::Closed),
        Ok(Progress::Command(fields)) => match process_command(&fields) {
            Ok(command) => Ok(Turn::Serve(command)),
            Err(e) => Err(e),
        },
    }
}

/// What is written to the client for a run of commands, where `bitmaps[j]` are
/// the bitmaps of the images that command `j` asks for, in order: the frames of
/// the first command's bitmaps, then those of the second, and so on.
pub open spec fn answers(bitmaps: Seq<Seq<Seq<u8>>>) -> Seq<u8> {
    replies(bitmaps).flatten()
}

/// Every bitmap of every command is a bitmap of the whole run, and fits its
/// prefix if all of them do.
proof fn lemma_all_fit(bitmaps: Seq<Seq<Seq<u8>>>)
    requires
        forall|j: int, i: int|
            0 <= j < bitmaps.len() && 0 <= i < bitmaps[j].len() ==> (#[trigger] bitmaps[j][i]).len()
                <= u32::MAX,
    ensures
        forall|i: int|
            0 <= i < bitmaps.flatten().len() ==> (#[trigger] bitmaps.flatten()[i]).len()
                <= u32::MAX,
    decreases bitmaps.len(),
{
    if bitmaps.len() == 0 {
        assert(bitmaps.flatten() =~= Seq::<Seq<u8>>::empty());
    } else {
        let head = bitmaps.drop_last();
        let last = bitmaps.last();
        assert(bitmaps =~= head.push(last));
        head.lemma_flatten_push(last);
        assert forall|j: int, i: int| 0 <= j < head.len() && 0 <= i < head[j].len() implies (
        #[trigger] head[j][i]).len() <= u32::MAX by {
            assert(head[j] == bitmaps[j]);
        }
        lemma_all_fit(head);
        let all = bitmaps.flatten();
        assert forall|i: int| 0 <= i < all.len() implies (#[trigger] all[i]).len() <= u32::MAX by {
            if i < head.flatten().len() {
                assert(all[i] == head.flatten()[i]);
            } else {
                assert(last == bitmaps[bitmaps.len() - 1]);
                assert(all[i] == last[i - head.flatten().len()]);
            }
        }
    }
}

/// Whether `reply` is what is written for `command` when `bitmaps` are the
/// bitmaps of the images that it asks for: their frames, which is one frame for
/// a `get`, one for each path of a `gets`, and nothing for any other command.
pub open spec fn well_answered(
    command: CommandView,
    bitmaps: Seq<Seq<u8>>,
    reply: Seq<u8>,
) -> bool {
    &&& reply == frames(bitmaps)
    &&& command is Get ==> bitmaps.len() == 1 && reply == frame(bitmaps[0])
    &&& command is Gets ==> bitmaps.len() == command->Gets_paths.len()
    &&& !(command is Get) && !(command is Gets) ==> reply == Seq::<u8>::empty()
}

/// The commands that the reader hands out for `chunks`, read from the
/// beginning of a frame.
pub open spec fn handed_out(chunks: Seq<Seq<u8>>) -> Seq<Seq<Seq<u8>>> {
    commands(fed(Seq::<u8>::empty(), chunks).0)
}

/// A connection answers what it is asked, in the order it is asked. Let the
/// stream hold the frames of `texts`, one after the other, each the text of a
/// command that reads well, `served[j]`; let `chunks` be what the reads of the
/// stream gave, every read asking for what the reader wanted; and let
/// `bitmaps[j]` be the bitmaps of the images that command `j` asks for, each of
/// a length that fits a prefix. Then the loop meets no error and no end of the
/// stream before the last frame is read; its turns serve exactly the commands
/// `served`, in order; and what is written for them, the answer to each command
/// after the answer to the one before, is a stream of whole frames that holds
/// exactly the bitmaps, in order: one frame for a `get`, as many as it has paths
/// for a `gets`, none for a `setup`, a `clear_cache` or a name that is no
/// command.
pub proof fn lemma_connection_round_trip(
    texts: Seq<Seq<u8>>,
    chunks: Seq<Seq<u8>>,
    served: Seq<CommandView>,
    bitmaps: Seq<Seq<Seq<u8>>>,
)
    requires
        paced(Seq::<u8>::empty(), chunks),
        chunks.flatten() == frames(texts),
        served.len() == texts.len(),
        bitmaps.len() == texts.len(),
        forall|j: int|
            0 <= j < texts.len() ==> (#[trigger] texts[j]).len() <= u32::MAX && command_of(
                split(texts[j]),
            ) == Ok::<CommandView, Error>(served[j]) && bitmaps[j].len() == asked(served[j]).len(),
        forall|j: int, i: int|
            0 <= j < bitmaps.len() && 0 <= i < bitmaps[j].len() ==> (#[trigger] bitmaps[j][i]).len()
                <= u32::MAX,
    ensures
        fed(Seq::<u8>::empty(), chunks).1 == Seq::<u8>::empty(),
        undisturbed(fed(Seq::<u8>::empty(), chunks).0),
        handed_out(chunks).len() == texts.len(),
        forall|j: int|
            0 <= j < texts.len() ==> turn_of(
                Ok(ProgressView::Command(#[trigger] handed_out(chunks)[j])),
            ) == Ok::<TurnView, Error>(TurnView::Serve(served[j])),
        answers(bitmaps) == frames(bitmaps.flatten()),
        unframed(answers(bitmaps)) == Some(bitmaps.flatten()),
        forall|j: int|
            0 <= j < texts.len() ==> well_answered(
                served[j],
                bitmaps[j],
                #[trigger] replies(bitmaps)[j],
            ),
{
    lemma_read_stream(texts, chunks);
    lemma_replies_join(bitmaps);
    lemma_all_fit(bitmaps);
    lemma_frames_round_trip(bitmaps.flatten());
    assert forall|j: int| 0 <= j < texts.len() implies well_answered(
        served[j],
        bitmaps[j],
        #[trigger] replies(bitmaps)[j],
    ) by {
        assert(texts[j].len() <= u32::MAX);
        assert forall|i: int| 0 <= i < bitmaps[j].len() implies (#[trigger] bitmaps[j][i]).len()
            <= u32::MAX by {}
        lemma_answer_is_framed(served[j], bitmaps[j], 1);
    }
    assert forall|j: int| 0 <= j < texts.len() implies turn_of(
        Ok(ProgressView::Command(#[trigger] handed_out(chunks)[j])),
    ) == Ok::<TurnView, Error>(TurnView::Serve(served[j])) by {
        assert(texts[j].len() <= u32::MAX);
    }
}

} // verus!
