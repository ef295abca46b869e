//! What a command line asks for.

use crate::names::text_bytes;
use crate::types::{DirEntry, EntryType};
use vstd::prelude::*;
use vstd::string::*;

verus! {

/// The size of a block index in bytes, unless another is asked for.
pub const DEFAULT_BLOCK_INDEX_WIDTH: u8 = 4;

/// The size of a block as a power of two, unless another is asked for.
pub const DEFAULT_BLOCK_SIZE_SHIFT: u8 = 12;

/// Why a command cannot be carried out.
#[derive(Debug)]
pub struct CliError {
    pub message: String,
}

impl CliError {
    pub fn new(message: String) -> (e: CliError)
        ensures
            e.message == message,
    {
        CliError { message }
    }
}

/// The commands.
#[derive(Debug, Clone, Copy, PartialEq, Eq, Structural)]
pub enum Verb {
    Create,
    Ls,
    Mkdir,
    Rmdir,
    MvDir,
    Put,
    Get,
    Cat,
    Rm,
    Mv,
    Info,
    Verify,
    Hello,
    Bench,
}

/// A command with what it is to work on.
#[derive(Debug)]
pub struct Request {
    pub verb: Verb,
    /// For a listing: the directories below are to be listed too.
    pub recursive: bool,
    /// For a new file: the size of compressed pieces as a power of two.
    pub vbss: Option<u8>,
    pub args: Vec<String>,
}

/// A request as a value.
pub ghost struct RequestView {
    pub verb: Verb,
    pub recursive: bool,
    pub vbss: Option<u8>,
    pub args: Seq<Seq<char>>,
}

impl View for Request {
    type V = RequestView;

    open spec fn view(&self) -> RequestView {
        RequestView {
            verb: self.verb,
            recursive: self.recursive,
            vbss: self.vbss,
            args: words(self.args@),
        }
    }
}

/// The words of a command line.
pub open spec fn words(args: Seq<String>) -> Seq<Seq<char>> {
    Seq::new(args.len(), |i: int| args[i]@)
}

// ---------------------------------------------------------------------------
// Numbers
// ---------------------------------------------------------------------------

/// All are decimal digits.
pub open spec fn all_digits(s: Seq<u8>) -> bool {
    forall|i: int| 0 <= i < s.len() ==> 48 <= #[trigger] s[i] <= 57
}

/// The number that decimal digits stand for.
pub open spec fn digits_value(s: Seq<u8>) -> nat
    decreases s.len(),
{
    if s.len() == 0 {
        0
    } else {
        10 * digits_value(s.drop_last()) + (s.last() - 48) as nat
    }
}

/// What stands behind a plus sign, or everything where there is none.
pub open spec fn unsigned_part(s: Seq<u8>) -> Seq<u8> {
    if s.len() > 0 && s[0] == 43 {
        s.skip(1)
    } else {
        s
    }
}

/// The number up to `max` that a text tells: digits, with or without a plus sign
/// before them.
pub open spec fn number(s: Seq<u8>, max: nat) -> Option<nat> {
    let digits = unsigned_part(s);
    if digits.len() > 0 && all_digits(digits) && digits_value(digits) <= max {
        Some(digits_value(digits))
    } else {
        None
    }
}

proof fn lemma_digits_grow(s: Seq<u8>, n: int)
    requires
        all_digits(s),
        0 <= n <= s.len(),
    ensures
        digits_value(s.take(n)) <= digits_value(s),
    decreases s.len(),
{
    if n == s.len() {
        assert(s.take(n) =~= s);
    } else {
        let less = s.drop_last();
        assert(all_digits(less));
        lemma_digits_grow(less, n);
        assert(less.take(n) =~= s.take(n));
    }
}

/// Reads a number up to `max`.
pub fn parse_number(text: &str, max: u64) -> (n: Option<u64>)
    ensures
        match n {
            Some(v) => number(text_bytes(text), max as nat) == Some(v as nat),
            None => number(text_bytes(text), max as nat) is None,
        },
{
    let bytes: &[u8] = text.as_bytes();
    let len: usize = bytes.len();
    let start: usize = if len > 0 && bytes[0] == 43 {
        1
    } else {
        0
    };
    let ghost digits = unsigned_part(bytes@);
    proof {
        assert(digits =~= bytes@.skip(start as int));
    }
    if start == len {
        return None;
    }
    let mut v: u64 = 0;
    let mut i: usize = start;
    while i < len
        invariant
            start <= i <= len == bytes@.len(),
            start <= 1,
            bytes@ == text_bytes(text),
            digits == bytes@.skip(start as int),
            all_digits(digits.take(i - start)),
            v == digits_value(digits.take(i - start)),
            v <= max,
            number(bytes@, max as nat) is Some ==> all_digits(digits) && digits_value(digits)
                <= max,
        decreases len - i,
    {
        let b: u8 = bytes[i];
        let ghost part = digits.take(i - start + 1);
        proof {
            assert(digits[i - start] == b);
            assert(part.drop_last() =~= digits.take(i - start));
            assert(part.last() == b);
        }
        if b < 48 || b > 57 {
            return None;
        }
        let d: u64 = (b - 48) as u64;
        proof {
            assert forall|k: int| 0 <= k < part.len() implies 48 <= #[trigger] part[k] <= 57 by {
                if k < i - start {
                    assert(digits.take(i - start)[k] == part[k]);
                }
            }
            if all_digits(digits) {
                lemma_digits_grow(digits, i - start + 1);
            }
        }
        if d > max || v > (max - d) / 10 {
            return None;
        }
        v = 10 * v + d;
        i = i + 1;
    }
    proof {
        assert(digits.take(len - start) =~= digits);
    }
    Some(v)
}

/// Whether a word is this one.
pub(crate) fn is_word(word: &String, is: &str) -> (same: bool)
    ensures
        same == (word@ == is@),
{
    *word == is.to_owned()
}

// ---------------------------------------------------------------------------
// Commands
// ---------------------------------------------------------------------------

/// The command that a word names.
pub open spec fn verb_of(word: Seq<char>) -> Option<Verb> {
    if word == "create"@ {
        Some(Verb::Create)
    } else if word == "ls"@ {
        Some(Verb::Ls)
    } else if word == "mkdir"@ {
        Some(Verb::Mkdir)
    } else if word == "rmdir"@ {
        Some(Verb::Rmdir)
    } else if word == "mv-dir"@ {
        Some(Verb::MvDir)
    } else if word == "put"@ {
        Some(Verb::Put)
    } else if word == "get"@ {
        Some(Verb::Get)
    } else if word == "cat"@ {
        Some(Verb::Cat)
    } else if word == "rm"@ {
        Some(Verb::Rm)
    } else if word == "mv"@ {
        Some(Verb::Mv)
    } else if word == "info"@ {
        Some(Verb::Info)
    } else if word == "verify"@ {
        Some(Verb::Verify)
    } else if word == "hello"@ {
        Some(Verb::Hello)
    } else if word == "bench"@ {
        Some(Verb::Bench)
    } else {
        None
    }
}

/// A command takes that many words.
pub open spec fn takes(verb: Verb, n: nat) -> bool {
    match verb {
        Verb::Create | Verb::Verify => n == 1,
        Verb::Ls => n == 1 || n == 2,
        Verb::Mkdir | Verb::Rmdir | Verb::Cat | Verb::Rm | Verb::Info => n == 2,
        Verb::MvDir | Verb::Put | Verb::Get | Verb::Mv => n == 3,
        Verb::Hello | Verb::Bench => true,
    }
}

/// The size of compressed pieces that the options of a new file ask for, from word
/// `i` on, where `so_far` was asked for before, or what is said of the first one that
/// is no such option.
pub open spec fn piece_option(args: Seq<Seq<char>>, i: int, so_far: Option<u8>) -> Result<
    Option<u8>,
    Seq<char>,
>
    decreases args.len() - i,
{
    if i >= args.len() {
        Ok(so_far)
    } else if args[i] != "--vbss"@ {
        Err("Unknown option: "@ + args[i] + ". Usage: sfs create <sfs-file> [--vbss N]"@)
    } else if i + 1 >= args.len() {
        Err("--vbss requires a numeric argument"@)
    } else {
        match number(vstd::utf8::encode_utf8(args[i + 1]), 255) {
            Some(v) => piece_option(args, i + 2, Some(v as u8)),
            None => Err("--vbss requires a numeric argument"@),
        }
    }
}

/// What a command line asks for, its first word being the command, or what is said
/// of one that asks for nothing.
pub open spec fn requested(args: Seq<Seq<char>>) -> Result<RequestView, Seq<char>> {
    if args.len() == 0 {
        Err("Usage: sfs <command> [args...]"@)
    } else {
        match verb_of(args[0]) {
            None => Err("Unknown command: "@ + args[0]),
            Some(verb) => {
                let rest = args.skip(1);
                if verb is Create && rest.len() > 0 {
                    match piece_option(rest, 1, None) {
                        Ok(vbss) => Ok(
                            RequestView { verb, recursive: false, vbss, args: rest.take(1) },
                        ),
                        Err(said) => Err(said),
                    }
                } else {
                    let recursive = verb is Ls && rest.len() > 0 && rest[0] == "-r"@;
                    let on = if recursive {
                        rest.skip(1)
                    } else {
                        rest
                    };
                    if takes(verb, on.len()) {
                        Ok(RequestView { verb, recursive, vbss: None, args: on })
                    } else {
                        Err(usage_text(verb))
                    }
                }
            },
        }
    }
}

fn parse_verb(word: &String) -> (verb: Option<Verb>)
    ensures
        verb == verb_of(word@),
{
    if is_word(word, "create") {
        Some(Verb::Create)
    } else if is_word(word, "ls") {
        Some(Verb::Ls)
    } else if is_word(word, "mkdir") {
        Some(Verb::Mkdir)
    } else if is_word(word, "rmdir") {
        Some(Verb::Rmdir)
    } else if is_word(word, "mv-dir") {
        Some(Verb::MvDir)
    } else if is_word(word, "put") {
        Some(Verb::Put)
    } else if is_word(word, "get") {
        Some(Verb::Get)
    } else if is_word(word, "cat") {
        Some(Verb::Cat)
    } else if is_word(word, "rm") {
        Some(Verb::Rm)
    } else if is_word(word, "mv") {
        Some(Verb::Mv)
    } else if is_word(word, "info") {
        Some(Verb::Info)
    } else if is_word(word, "verify") {
        Some(Verb::Verify)
    } else if is_word(word, "hello") {
        Some(Verb::Hello)
    } else if is_word(word, "bench") {
        Some(Verb::Bench)
    } else {
        None
    }
}

/// How a command is used.
pub fn usage(verb: Verb) -> (text: &'static str)
    ensures
        text@ == usage_text(verb),
{
    match verb {
        Verb::Create => "Usage: sfs create <sfs-file> [--vbss N]",
        Verb::Ls => "Usage: sfs ls [-r] <sfs-file> [dir]",
        Verb::Mkdir => "Usage: sfs mkdir <sfs-file> <dir>",
        Verb::Rmdir => "Usage: sfs rmdir <sfs-file> <dir>",
        Verb::MvDir => "Usage: sfs mv-dir <sfs-file> <old> <new>",
        Verb::Put => "Usage: sfs put <sfs-file> <local-file> <stream>",
        Verb::Get => "Usage: sfs get <sfs-file> <stream> <local-file>",
        Verb::Cat => "Usage: sfs cat <sfs-file> <stream>",
        Verb::Rm => "Usage: sfs rm <sfs-file> <stream>",
        Verb::Mv => "Usage: sfs mv <sfs-file> <old> <new>",
        Verb::Info => "Usage: sfs info <sfs-file> <stream>",
        Verb::Verify => "Usage: sfs verify <sfs-file>",
        Verb::Hello => "Usage: sfs hello",
        Verb::Bench => "Usage: sfs bench <scenario> [options]",
    }
}

/// How a command is used.
pub open spec fn usage_text(verb: Verb) -> Seq<char> {
    match verb {
        Verb::Create => "Usage: sfs create <sfs-file> [--vbss N]"@,
        Verb::Ls => "Usage: sfs ls [-r] <sfs-file> [dir]"@,
        Verb::Mkdir => "Usage: sfs mkdir <sfs-file> <dir>"@,
        Verb::Rmdir => "Usage: sfs rmdir <sfs-file> <dir>"@,
        Verb::MvDir => "Usage: sfs mv-dir <sfs-file> <old> <new>"@,
        Verb::Put => "Usage: sfs put <sfs-file> <local-file> <stream>"@,
        Verb::Get => "Usage: sfs get <sfs-file> <stream> <local-file>"@,
        Verb::Cat => "Usage: sfs cat <sfs-file> <stream>"@,
        Verb::Rm => "Usage: sfs rm <sfs-file> <stream>"@,
        Verb::Mv => "Usage: sfs mv <sfs-file> <old> <new>"@,
        Verb::Info => "Usage: sfs info <sfs-file> <stream>"@,
        Verb::Verify => "Usage: sfs verify <sfs-file>"@,
        Verb::Hello => "Usage: sfs hello"@,
        Verb::Bench => "Usage: sfs bench <scenario> [options]"@,
    }
}

fn enough(verb: Verb, n: usize) -> (yes: bool)
    ensures
        yes == takes(verb, n as nat),
{
    match verb {
        Verb::Create | Verb::Verify => n == 1,
        Verb::Ls => n == 1 || n == 2,
        Verb::Mkdir | Verb::Rmdir | Verb::Cat | Verb::Rm | Verb::Info => n == 2,
        Verb::MvDir | Verb::Put | Verb::Get | Verb::Mv => n == 3,
        Verb::Hello | Verb::Bench => true,
    }
}

/// The words from number `from` up to number `to`.
fn some_words(args: &[String], from: usize, to: usize) -> (out: Vec<String>)
    requires
        from <= to <= args@.len(),
    ensures
        words(out@) == words(args@).subrange(from as int, to as int),
{
    let mut out: Vec<String> = Vec::new();
    let mut i: usize = from;
    while i < to
        invariant
            from <= i <= to <= args@.len(),
            out@.len() == i - from,
            forall|k: int| 0 <= k < out@.len() ==> (#[trigger] out@[k])@ == args@[from + k]@,
        decreases to - i,
    {
        out.push(args[i].clone());
        i = i + 1;
    }
    proof {
        assert(words(out@) =~= words(args@).subrange(from as int, to as int));
    }
    out
}

/// Reads the options of a new file from word `from` on.
fn parse_piece_option(args: &[String], from: usize) -> (r: Result<Option<u8>, CliError>)
    requires
        from <= args@.len(),
    ensures
        match r {
            Ok(vbss) => piece_option(words(args@), from as int, None) == Ok::<
                Option<u8>,
                Seq<char>,
            >(vbss),
            Err(e) => piece_option(words(args@), from as int, None) == Err::<
                Option<u8>,
                Seq<char>,
            >(e.message@),
        },
{
    let n: usize = args.len();
    let mut vbss: Option<u8> = None;
    let mut i: usize = from;
    while i < n
        invariant
            i <= n == args@.len(),
            piece_option(words(args@), from as int, None) == piece_option(
                words(args@),
                i as int,
                vbss,
            ),
        decreases n - i,
    {
        if !is_word(&args[i], "--vbss") {
            return Err(
                CliError::new(
                    "Unknown option: ".to_owned().concat(args[i].as_str()).concat(
                        ". Usage: sfs create <sfs-file> [--vbss N]",
                    ),
                ),
            );
        }
        if n - i < 2 {
            return Err(CliError::new("--vbss requires a numeric argument".to_owned()));
        }
        match parse_number(args[i + 1].as_str(), 255) {
            Some(v) => {
                vbss = Some(v as u8);
            },
            None => {
                return Err(CliError::new("--vbss requires a numeric argument".to_owned()));
            },
        }
        i = i + 2;
    }
    Ok(vbss)
}

/// Reads a command line, its first word being the command.
pub fn parse_command(args: &[String]) -> (r: Result<Request, CliError>)
    ensures
        match r {
            Ok(request) => requested(words(args@)) == Ok::<RequestView, Seq<char>>(request@),
            Err(e) => requested(words(args@)) == Err::<RequestView, Seq<char>>(e.message@),
        },
{
    let n: usize = args.len();
    if n == 0 {
        return Err(CliError::new("Usage: sfs <command> [args...]".to_owned()));
    }
    let verb: Verb = match parse_verb(&args[0]) {
        Some(verb) => verb,
        None => {
            return Err(CliError::new("Unknown command: ".to_owned().concat(args[0].as_str())));
        },
    };
    let rest: Vec<String> = some_words(args, 1, n);
    proof {
        assert(words(args@).subrange(1, n as int) =~= words(args@).skip(1));
    }
    if verb == Verb::Create && rest.len() > 0 {
        let vbss: Option<u8> = match parse_piece_option(rest.as_slice(), 1) {
            Ok(vbss) => vbss,
            Err(e) => {
                return Err(e);
            },
        };
        let path: Vec<String> = some_words(rest.as_slice(), 0, 1);
        return Ok(Request { verb, recursive: false, vbss, args: path });
    }
    let recursive: bool = verb == Verb::Ls && rest.len() > 0 && is_word(&rest[0], "-r");
    let from: usize = if recursive {
        1
    } else {
        0
    };
    let on: Vec<String> = some_words(rest.as_slice(), from, rest.len());
    proof {
        assert(words(rest@).subrange(1, rest@.len() as int) =~= words(rest@).skip(1));
        assert(words(rest@).subrange(0, rest@.len() as int) =~= words(rest@));
    }
    if !enough(verb, on.len()) {
        return Err(CliError::new(usage(verb).to_owned()));
    }
    Ok(Request { verb, recursive, vbss: None, args: on })
}

// ---------------------------------------------------------------------------
// Listings
// ---------------------------------------------------------------------------

/// A name below a directory; the empty text stands for the root.
pub open spec fn path_below(dir: Seq<char>, name: Seq<char>) -> Seq<char> {
    if dir.len() == 0 {
        name
    } else {
        dir + "/"@ + name
    }
}

/// A name below a directory; the empty text stands for the root.
pub fn child_path(dir: &str, name: &str) -> (path: String)
    ensures
        path@ == path_below(dir@, name@),
{
    if dir.unicode_len() == 0 {
        name.to_owned()
    } else {
        dir.to_owned().concat("/").concat(name)
    }
}

/// The line of a listing for an entry of directory `dir`.
pub open spec fn line_of(dir: Seq<char>, name: Seq<char>, kind: EntryType) -> Seq<char> {
    (match kind {
        EntryType::Directory => "DIR   "@,
        EntryType::Stream => "STREAM"@,
    }) + " "@ + path_below(dir, name)
}

/// The line of a listing for an entry of directory `dir`.
pub fn entry_line(dir: &str, entry: &DirEntry) -> (line: String)
    ensures
        line@ == line_of(dir@, entry.name@, entry.entry_type),
{
    let kind: &str = match entry.entry_type {
        EntryType::Directory => "DIR   ",
        EntryType::Stream => "STREAM",
    };
    let path: String = child_path(dir, entry.name.as_str());
    kind.to_owned().concat(" ").concat(path.as_str())
}

} // verus!
