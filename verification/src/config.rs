//! The service's configuration, written once by the first `setup` command, and
//! the names of the files of the disk tier.

use vstd::prelude::*;
use crate::bytes::copy_bytes;
use crate::command::{all_digits, digits_value, is_digit, parsed_u32, unsigned};
use crate::error::Error;

verus! {

/// What a `setup` command fixes for the rest of the process's life.
#[derive(Debug, PartialEq, Eq)]
pub struct Configuration {
    /// Directory that holds the files of the disk tier.
    pub disk_cache_dir: Vec<u8>,
    /// Directory that relative source paths are read from.
    pub working_dir: Vec<u8>,
    /// Whether local source files may be read by several workers at once.
    pub threaded_reads: bool,
}

/// A configuration as plain values.
pub struct ConfigurationView {
    pub disk_cache_dir: Seq<u8>,
    pub working_dir: Seq<u8>,
    pub threaded_reads: bool,
}

impl View for Configuration {
    type V = ConfigurationView;

    open spec fn view(&self) -> ConfigurationView {
        ConfigurationView {
            disk_cache_dir: self.disk_cache_dir@,
            working_dir: self.working_dir@,
            threaded_reads: self.threaded_reads,
        }
    }
}

/// The configuration as plain values, where there is one.
pub open spec fn view_of(current: Option<&Configuration>) -> Option<ConfigurationView> {
    match current {
        Some(config) => Some(config@),
        None => None,
    }
}

/// The configuration in force after a `setup` command that asks for `requested`
/// arrives while `current` is in force: the first one stays.
pub open spec fn configured(
    current: Option<ConfigurationView>,
    requested: ConfigurationView,
) -> Option<ConfigurationView> {
    match current {
        Some(_) => current,
        None => Some(requested),
    }
}

/// The configuration that a `setup` command with these arguments asks for.
pub open spec fn requested(
    disk_cache_dir: Seq<u8>,
    working_dir: Seq<u8>,
    threaded_reads: bool,
) -> ConfigurationView {
    ConfigurationView { disk_cache_dir, working_dir, threaded_reads }
}

/// Handles a `setup` command. Returns the configuration to install, after the
/// working directory has been changed to its `working_dir`, or `None` where one
/// is in force already: then nothing is to be done.
pub fn setup(
    current: Option<&Configuration>,
    disk_cache_dir: &[u8],
    working_dir: &[u8],
    threaded_reads: bool,
) -> (fresh: Option<Configuration>)
    ensures
        current is Some <==> fresh is None,
        fresh matches Some(config) ==> config@ == requested(
            disk_cache_dir@,
            working_dir@,
            threaded_reads,
        ),
        configured(view_of(current), requested(disk_cache_dir@, working_dir@, threaded_reads))
            == match fresh {
            Some(config) => Some(config@),
            None => view_of(current),
        },
{
    match current {
        Some(_) => None,
        None => Some(
            Configuration {
                disk_cache_dir: copy_bytes(disk_cache_dir),
                working_dir: copy_bytes(working_dir),
                threaded_reads,
            },
        ),
    }
}

/// A second `setup` changes nothing: whatever it asks for, the configuration
/// that the first one left stays in force.
pub proof fn lemma_setup_is_idempotent(
    current: Option<ConfigurationView>,
    first: ConfigurationView,
    second: ConfigurationView,
)
    ensures
        configured(current, first) is Some,
        configured(configured(current, first), second) == configured(current, first),
        current is None ==> configured(configured(current, first), second) == Some(first),
{
}

/// The decimal digits of `n`, without leading zeros, as ASCII.
pub open spec fn decimal(n: nat) -> Seq<u8>
    decreases n,
{
    if n < 10 {
        seq![(0x30 + n) as u8]
    } else {
        decimal(n / 10).push((0x30 + n % 10) as u8)
    }
}

/// The file that holds the entry with number `id`: `{dir}/{id}.bmp`.
pub open spec fn disk_cache_path(dir: Seq<u8>, id: u32) -> Seq<u8> {
    dir + seq![0x2fu8] + decimal(id as nat) + seq![0x2eu8, 0x62u8, 0x6du8, 0x70u8]
}

/// Written in decimal, a number can be read back: its text is made of digits,
/// at least one, that stand for the number itself, so that a number that fits
/// 32 bits is what the reading of an argument makes of its text.
pub proof fn lemma_decimal_reads_back(n: nat)
    ensures
        decimal(n).len() > 0,
        all_digits(decimal(n)),
        digits_value(decimal(n)) == n,
        n <= u32::MAX ==> parsed_u32(decimal(n)) == Some(n as u32),
    decreases n,
{
    let text = decimal(n);
    if n < 10 {
        assert(text.drop_last() =~= Seq::<u8>::empty());
        assert(digits_value(text.drop_last()) == 0);
        assert(is_digit(text[0]));
    } else {
        lemma_decimal_reads_back(n / 10);
        let head = decimal(n / 10);
        assert(text.drop_last() =~= head);
        assert(text.last() == (0x30 + n % 10) as u8);
        assert forall|i: int| 0 <= i < text.len() implies is_digit(#[trigger] text[i]) by {
            if i < head.len() {
                assert(text[i] == head[i]);
            }
        }
    }
    assert(is_digit(text[0]));
    assert(unsigned(text) == text);
}

/// No two numbers are written alike.
pub proof fn lemma_decimal_is_injective(a: nat, b: nat)
    requires
        decimal(a) == decimal(b),
    ensures
        a == b,
{
    lemma_decimal_reads_back(a);
    lemma_decimal_reads_back(b);
}

/// No two numbers name the same file: under one directory, the files of
/// different numbers are different files.
pub proof fn lemma_disk_cache_path_is_injective(dir: Seq<u8>, a: u32, b: u32)
    requires
        disk_cache_path(dir, a) == disk_cache_path(dir, b),
    ensures
        a == b,
{
    let first = disk_cache_path(dir, a);
    let second = disk_cache_path(dir, b);
    let from: int = dir.len() as int + 1;
    assert(first.len() == dir.len() + 1 + decimal(a as nat).len() + 4);
    assert(second.len() == dir.len() + 1 + decimal(b as nat).len() + 4);
    assert(decimal(a as nat) =~= first.subrange(from, from + decimal(a as nat).len()));
    assert(decimal(b as nat) =~= second.subrange(from, from + decimal(b as nat).len()));
    lemma_decimal_is_injective(a as nat, b as nat);
}

/// Appends the decimal digits of `n` to `out`.
fn push_decimal(out: &mut Vec<u8>, n: u32)
    ensures
        final(out)@ == old(out)@ + decimal(n as nat),
    decreases n,
{
    if n >= 10 {
        push_decimal(out, n / 10);
    }
    let digit: u8 = 0x30 + (n % 10) as u8;
    out.push(digit);
    assert(out@ =~= old(out)@ + decimal(n as nat));
}

/// The name of the file with number `cache_id` under the directory `dir`.
pub fn disk_cache_file(dir: &[u8], cache_id: u32) -> (file: Vec<u8>)
    ensures
        file@ == disk_cache_path(dir@, cache_id),
{
    let mut file: Vec<u8> = copy_bytes(dir);
    file.push(0x2f);
    push_decimal(&mut file, cache_id);
    file.push(0x2e);
    file.push(0x62);
    file.push(0x6d);
    file.push(0x70);
    assert(file@ =~= disk_cache_path(dir@, cache_id));
    file
}

/// The file of the disk tier that belongs to `cache_id`, under the configured
/// directory. Fails with `NotSetup` exactly when no configuration is in force.
pub fn get_disk_cache_path(config: Option<&Configuration>, cache_id: u32) -> (path: Result<
    Vec<u8>,
    Error,
>)
    ensures
        match config {
            Some(c) => path matches Ok(p) && p@ == disk_cache_path(c.disk_cache_dir@, cache_id),
            None => path == Err::<Vec<u8>, Error>(Error::NotSetup),
        },
{
    match config {
        None => Err(Error::NotSetup),
        Some(c) => Ok(disk_cache_file(c.disk_cache_dir.as_slice(), cache_id)),
    }
}

} // verus!
