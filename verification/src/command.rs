//! The command grammar: a command name and its arguments, separated by `|`.

use vstd::prelude::*;
use crate::bytes::{bytes_of, copy_bytes, same_bytes};
use crate::error::Error;

verus! {

/// The byte `|`, which separates the fields of a command.
pub const SEPARATOR: u8 = 0x7c;

/// The fields of a command text. Read from left to right, every separator ends
/// a field and begins an empty one; any other byte joins the field that is
/// open. A text with `n` separators has `n + 1` fields.
pub open spec fn split(text: Seq<u8>) -> Seq<Seq<u8>>
    decreases text.len(),
{
    if text.len() == 0 {
        seq![Seq::<u8>::empty()]
    } else {
        let before = split(text.drop_last());
        if text.last() == SEPARATOR {
            before.push(Seq::<u8>::empty())
        } else {
            before.drop_last().push(before.last().push(text.last()))
        }
    }
}

/// Fields put back together, with a separator between each two.
pub open spec fn join(fields: Seq<Seq<u8>>) -> Seq<u8>
    decreases fields.len(),
{
    if fields.len() == 0 {
        Seq::<u8>::empty()
    } else if fields.len() == 1 {
        fields[0]
    } else {
        join(fields.drop_last()).push(SEPARATOR) + fields.last()
    }
}

/// Splitting loses nothing and leaves no separator behind: there is at least
/// one field, no field holds a separator, and the fields joined by separators
/// are the text again.
pub proof fn lemma_split_join(text: Seq<u8>)
    ensures
        split(text).len() >= 1,
        forall|i: int, j: int|
            0 <= i < split(text).len() && 0 <= j < split(text)[i].len() ==> #[trigger] split(
                text,
            )[i][j] != SEPARATOR,
        join(split(text)) == text,
    decreases text.len(),
{
    if text.len() == 0 {
        assert(join(split(text)) =~= text);
    } else {
        let before = split(text.drop_last());
        lemma_split_join(text.drop_last());
        let fields = split(text);
        if text.last() == SEPARATOR {
            assert(fields.drop_last() =~= before);
            assert(join(fields) =~= join(before).push(SEPARATOR) + Seq::<u8>::empty());
            assert(join(fields) =~= text.drop_last().push(SEPARATOR));
            assert(text.drop_last().push(text.last()) =~= text);
        } else {
            let open = before.last().push(text.last());
            if before.len() == 1 {
                assert(fields =~= seq![open]);
                assert(join(before) == before[0]);
                assert(join(fields) =~= text.drop_last().push(text.last()));
            } else {
                assert(fields.drop_last() =~= before.drop_last());
                assert(join(fields) =~= join(before.drop_last()).push(SEPARATOR) + open);
                assert(join(before) == join(before.drop_last()).push(SEPARATOR) + before.last());
                assert(join(fields) =~= join(before).push(text.last()));
            }
            assert(text.drop_last().push(text.last()) =~= text);
        }
    }
}

/// Splits a command text into its fields.
pub fn split_fields(text: &[u8]) -> (fields: Vec<Vec<u8>>)
    ensures
        bytes_of(fields@) == split(text@),
{
    let mut fields: Vec<Vec<u8>> = Vec::new();
    let mut open: Vec<u8> = Vec::new();
    let mut i: usize = 0;
    while i < text.len()
        invariant
            i <= text@.len(),
            bytes_of(fields@).push(open@) == split(text@.take(i as int)),
        decreases text@.len() - i,
    {
        let ghost closed = bytes_of(fields@);
        let ghost partial = open@;
        let ghost seen = text@.take(i + 1);
        assert(seen.drop_last() =~= text@.take(i as int));
        assert(seen.last() == text@[i as int]);
        let byte: u8 = text[i];
        if byte == SEPARATOR {
            fields.push(open);
            open = Vec::new();
            assert(bytes_of(fields@) =~= closed.push(partial));
            assert(bytes_of(fields@).push(open@) =~= split(seen));
        } else {
            open.push(byte);
            assert(closed.push(partial).drop_last() =~= closed);
            assert(bytes_of(fields@).push(open@) =~= split(seen));
        }
        i = i + 1;
    }
    assert(text@.take(text@.len() as int) =~= text@);
    let ghost closed = bytes_of(fields@);
    let ghost partial = open@;
    fields.push(open);
    assert(bytes_of(fields@) =~= closed.push(partial));
    fields
}

/// Whether `byte` is an ASCII digit.
pub open spec fn is_digit(byte: u8) -> bool {
    0x30 <= byte <= 0x39
}

/// Whether every byte is an ASCII digit.
pub open spec fn all_digits(digits: Seq<u8>) -> bool {
    forall|i: int| 0 <= i < digits.len() ==> is_digit(#[trigger] digits[i])
}

/// The number that decimal digits stand for.
pub open spec fn digits_value(digits: Seq<u8>) -> nat
    decreases digits.len(),
{
    if digits.len() == 0 {
        0
    } else {
        digits_value(digits.drop_last()) * 10 + (digits.last() - 0x30) as nat
    }
}

/// The digits of a number's text: the text without its one leading `+`, if it
/// has one.
pub open spec fn unsigned(text: Seq<u8>) -> Seq<u8> {
    if text.len() > 0 && text[0] == 0x2b {
        text.drop_first()
    } else {
        text
    }
}

/// The number that a width or height argument stands for: decimal digits, at
/// least one, after at most one `+`, with a value that fits 32 bits. Anything
/// else is no number.
pub open spec fn parsed_u32(text: Seq<u8>) -> Option<u32> {
    let digits = unsigned(text);
    if digits.len() > 0 && all_digits(digits) && digits_value(digits) <= u32::MAX {
        Some(digits_value(digits) as u32)
    } else {
        None
    }
}

/// More digits never stand for less.
proof fn lemma_value_grows(digits: Seq<u8>, k: int)
    requires
        all_digits(digits),
        0 <= k <= digits.len(),
    ensures
        digits_value(digits.take(k)) <= digits_value(digits),
    decreases digits.len() - k,
{
    if k == digits.len() {
        assert(digits.take(k) =~= digits);
    } else {
        lemma_value_grows(digits, k + 1);
        let longer = digits.take(k + 1);
        assert(longer.drop_last() =~= digits.take(k));
        assert(is_digit(digits[k]));
        assert(longer.last() == digits[k]);
    }
}

/// Reads a width or height argument.
pub fn parse_u32(text: &[u8]) -> (number: Option<u32>)
    ensures
        number == parsed_u32(text@),
{
    let start: usize = if text.len() > 0 && text[0] == 0x2b {
        1
    } else {
        0
    };
    let ghost digits = unsigned(text@);
    assert(digits =~= text@.subrange(start as int, text@.len() as int));
    if start == text.len() {
        return None;
    }
    let mut value: u64 = 0;
    let mut i: usize = start;
    while i < text.len()
        invariant
            start <= i <= text@.len(),
            digits == unsigned(text@),
            digits == text@.subrange(start as int, text@.len() as int),
            all_digits(digits.take(i - start)),
            value == digits_value(digits.take(i - start)),
            value <= u32::MAX,
        decreases text@.len() - i,
    {
        let byte: u8 = text[i];
        let ghost seen = digits.take(i - start + 1);
        assert(seen.drop_last() =~= digits.take(i - start));
        assert(seen.last() == byte);
        assert(digits[i - start] == byte);
        if byte < 0x30 || byte > 0x39 {
            assert(!is_digit(digits[i - start]));
            return None;
        }
        value = value * 10 + (byte - 0x30) as u64;
        assert(all_digits(seen)) by {
            assert forall|j: int| 0 <= j < seen.len() implies is_digit(#[trigger] seen[j]) by {
                if j < seen.len() - 1 {
                    assert(seen[j] == digits.take(i - start)[j]);
                }
            }
        }
        assert(value == digits_value(seen));
        if value > 0xffff_ffff {
            proof {
                if all_digits(digits) {
                    lemma_value_grows(digits, i - start + 1);
                }
            }
            return None;
        }
        i = i + 1;
    }
    assert(digits.take(digits.len() as int) =~= digits);
    Some(value as u32)
}

/// A command, read from the wire.
#[derive(Debug, PartialEq, Eq)]
pub enum Command {
    /// Fix the configuration, unless one is in force.
    Setup { disk_cache_dir: Vec<u8>, working_dir: Vec<u8>, threaded_reads: bool },
    /// Empty the cache and delete its files.
    ClearCache,
    /// Send one image.
    Get { path: Vec<u8>, width: u32, height: u32 },
    /// Send a batch of images, all of one extent.
    Gets { width: u32, height: u32, paths: Vec<Vec<u8>> },
    /// A name that is no command: nothing is sent for it.
    Unknown(Vec<u8>),
}

/// A command as plain values.
pub enum CommandView {
    Setup { disk_cache_dir: Seq<u8>, working_dir: Seq<u8>, threaded_reads: bool },
    ClearCache,
    Get { path: Seq<u8>, width: u32, height: u32 },
    Gets { width: u32, height: u32, paths: Seq<Seq<u8>> },
    Unknown(Seq<u8>),
}

impl View for Command {
    type V = CommandView;

    open spec fn view(&self) -> CommandView {
        match self {
            Command::Setup { disk_cache_dir, working_dir, threaded_reads } => CommandView::Setup {
                disk_cache_dir: disk_cache_dir@,
                working_dir: working_dir@,
                threaded_reads: *threaded_reads,
            },
            Command::ClearCache => CommandView::ClearCache,
            Command::Get { path, width, height } => CommandView::Get {
                path: path@,
                width: *width,
                height: *height,
            },
            Command::Gets { width, height, paths } => CommandView::Gets {
                width: *width,
                height: *height,
                paths: bytes_of(paths@),
            },
            Command::Unknown(name) => CommandView::Unknown(name@),
        }
    }
}

/// The bytes of `clear_cache`.
pub open spec fn word_clear_cache() -> Seq<u8> {
    seq![0x63u8, 0x6cu8, 0x65u8, 0x61u8, 0x72u8, 0x5fu8, 0x63u8, 0x61u8, 0x63u8, 0x68u8, 0x65u8]
}

/// The bytes of `setup`.
pub open spec fn word_setup() -> Seq<u8> {
    seq![0x73u8, 0x65u8, 0x74u8, 0x75u8, 0x70u8]
}

/// The bytes of `gets`.
pub open spec fn word_gets() -> Seq<u8> {
    seq![0x67u8, 0x65u8, 0x74u8, 0x73u8]
}

/// The bytes of `get`.
pub open spec fn word_get() -> Seq<u8> {
    seq![0x67u8, 0x65u8, 0x74u8]
}

/// The bytes of `true`.
pub open spec fn word_true() -> Seq<u8> {
    seq![0x74u8, 0x72u8, 0x75u8, 0x65u8]
}

/// The number in field `at` of `args`: the field must be there, and be a number.
pub open spec fn number_at(args: Seq<Seq<u8>>, at: int) -> Result<u32, Error> {
    if at >= args.len() {
        Err(Error::MissingArgument)
    } else {
        match parsed_u32(args[at]) {
            Some(n) => Ok(n),
            None => Err(Error::BadInteger),
        }
    }
}

/// The command that the fields `args` stand for. The first field is the name.
/// `setup` takes a directory for the disk tier, a working directory, and
/// `true` or anything else. `get` takes a path, a width and a height. `gets`
/// takes a width, a height, and any number of paths. `clear_cache` takes
/// nothing. Arguments are read from left to right, and the first that is
/// missing or is no number decides the error. Fields beyond those that a
/// command takes are ignored.
pub open spec fn command_of(args: Seq<Seq<u8>>) -> Result<CommandView, Error> {
    if args.len() == 0 {
        Err(Error::MissingArgument)
    } else if args[0] == word_clear_cache() {
        Ok(CommandView::ClearCache)
    } else if args[0] == word_setup() {
        if args.len() < 4 {
            Err(Error::MissingArgument)
        } else {
            Ok(
                CommandView::Setup {
                    disk_cache_dir: args[1],
                    working_dir: args[2],
                    threaded_reads: args[3] == word_true(),
                },
            )
        }
    } else if args[0] == word_gets() {
        match number_at(args, 1) {
            Err(e) => Err(e),
            Ok(width) => match number_at(args, 2) {
                Err(e) => Err(e),
                Ok(height) => Ok(
                    CommandView::Gets { width, height, paths: args.subrange(3, args.len() as int) },
                ),
            },
        }
    } else if args[0] == word_get() {
        if args.len() < 2 {
            Err(Error::MissingArgument)
        } else {
            match number_at(args, 2) {
                Err(e) => Err(e),
                Ok(width) => match number_at(args, 3) {
                    Err(e) => Err(e),
                    Ok(height) => Ok(CommandView::Get { path: args[1], width, height }),
                },
            }
        }
    } else {
        Ok(CommandView::Unknown(args[0]))
    }
}

/// Reads the number in field `at` of `args`.
fn read_number(args: &Vec<Vec<u8>>, at: usize) -> (number: Result<u32, Error>)
    ensures
        number == number_at(bytes_of(args@), at as int),
{
    if at >= args.len() {
        return Err(Error::MissingArgument);
    }
    match parse_u32(args[at].as_slice()) {
        Some(n) => Ok(n),
        None => Err(Error::BadInteger),
    }
}

/// Reads a command from its fields.
pub fn process_command(args: &Vec<Vec<u8>>) -> (command: Result<Command, Error>)
    ensures
        match command {
            Ok(c) => command_of(bytes_of(args@)) == Ok::<CommandView, Error>(c@),
            Err(e) => command_of(bytes_of(args@)) == Err::<CommandView, Error>(e),
        },
{
    if args.len() == 0 {
        return Err(Error::MissingArgument);
    }
    let name: &[u8] = args[0].as_slice();
    let clear_cache: [u8; 11] = [0x63, 0x6c, 0x65, 0x61, 0x72, 0x5f, 0x63, 0x61, 0x63, 0x68, 0x65];
    let setup: [u8; 5] = [0x73, 0x65, 0x74, 0x75, 0x70];
    let gets: [u8; 4] = [0x67, 0x65, 0x74, 0x73];
    let get: [u8; 3] = [0x67, 0x65, 0x74];
    let yes: [u8; 4] = [0x74, 0x72, 0x75, 0x65];
    assert(clear_cache@ =~= word_clear_cache());
    assert(setup@ =~= word_setup());
    assert(gets@ =~= word_gets());
    assert(get@ =~= word_get());
    assert(yes@ =~= word_true());
    if same_bytes(name, clear_cache.as_slice()) {
        Ok(Command::ClearCache)
    } else if same_bytes(name, setup.as_slice()) {
        if args.len() < 4 {
            return Err(Error::MissingArgument);
        }
        Ok(
            Command::Setup {
                disk_cache_dir: copy_bytes(args[1].as_slice()),
                working_dir: copy_bytes(args[2].as_slice()),
                threaded_reads: same_bytes(args[3].as_slice(), yes.as_slice()),
            },
        )
    } else if same_bytes(name, gets.as_slice()) {
        let width: u32 = match read_number(args, 1) {
            Ok(n) => n,
            Err(e) => {
                return Err(e);
            },
        };
        let height: u32 = match read_number(args, 2) {
            Ok(n) => n,
            Err(e) => {
                return Err(e);
            },
        };
        let mut paths: Vec<Vec<u8>> = Vec::new();
        let mut i: usize = 3;
        while i < args.len()
            invariant
                3 <= i <= args@.len(),
                bytes_of(paths@) == bytes_of(args@).subrange(3, i as int),
            decreases args@.len() - i,
        {
            let ghost before = paths@;
            paths.push(copy_bytes(args[i].as_slice()));
            proof {
                let wanted = bytes_of(args@).subrange(3, i + 1);
                let sofar = bytes_of(args@).subrange(3, i as int);
                assert(bytes_of(before).len() == before.len());
                assert(bytes_of(paths@).len() == wanted.len());
                assert forall|k: int| 0 <= k < wanted.len() implies bytes_of(paths@)[k]
                    == wanted[k] by {
                    if k < before.len() {
                        assert(bytes_of(before)[k] == before[k]@);
                        assert(sofar[k] == wanted[k]);
                        assert(paths@[k] == before[k]);
                    }
                }
                assert(bytes_of(paths@) =~= wanted);
            }
            i = i + 1;
        }
        Ok(Command::Gets { width, height, paths })
    } else if same_bytes(name, get.as_slice()) {
        if args.len() < 2 {
            return Err(Error::MissingArgument);
        }
        let width: u32 = match read_number(args, 2) {
            Ok(n) => n,
            Err(e) => {
                return Err(e);
            },
        };
        let height: u32 = match read_number(args, 3) {
            Ok(n) => n,
            Err(e) => {
                return Err(e);
            },
        };
        Ok(Command::Get { path: copy_bytes(args[1].as_slice()), width, height })
    } else {
        Ok(Command::Unknown(copy_bytes(name)))
    }
}

} // verus!
