//! Values shared by all layers: errors, modes, handles and directory entries.

use vstd::prelude::*;
use vstd::string::*;

verus! {

/// What can go wrong in any layer.
#[derive(Debug)]
pub enum SfsError {
    NotFound(String),
    AlreadyExists(String),
    NotEmpty(String),
    InvalidPath(String),
    LockConflict(String),
    SeekOutOfBounds(String),
    IoError(String),
    ReadOnly(String),
}

impl SfsError {
    /// The error in words.
    pub open spec fn words(&self) -> Seq<char> {
        match self {
            SfsError::NotFound(msg) => "not found: "@ + msg@,
            SfsError::AlreadyExists(msg) => "already exists: "@ + msg@,
            SfsError::NotEmpty(msg) => "not empty: "@ + msg@,
            SfsError::InvalidPath(msg) => "invalid path: "@ + msg@,
            SfsError::LockConflict(msg) => "lock conflict: "@ + msg@,
            SfsError::SeekOutOfBounds(msg) => "seek out of bounds: "@ + msg@,
            SfsError::IoError(msg) => "I/O error: "@ + msg@,
            SfsError::ReadOnly(msg) => "read-only: "@ + msg@,
        }
    }

    /// The error in words.
    pub fn text(&self) -> (text: String)
        ensures
            text@ == self.words(),
    {
        match self {
            SfsError::NotFound(msg) => "not found: ".to_owned().concat(msg.as_str()),
            SfsError::AlreadyExists(msg) => "already exists: ".to_owned().concat(msg.as_str()),
            SfsError::NotEmpty(msg) => "not empty: ".to_owned().concat(msg.as_str()),
            SfsError::InvalidPath(msg) => "invalid path: ".to_owned().concat(msg.as_str()),
            SfsError::LockConflict(msg) => "lock conflict: ".to_owned().concat(msg.as_str()),
            SfsError::SeekOutOfBounds(msg) => {
                "seek out of bounds: ".to_owned().concat(msg.as_str())
            },
            SfsError::IoError(msg) => "I/O error: ".to_owned().concat(msg.as_str()),
            SfsError::ReadOnly(msg) => "read-only: ".to_owned().concat(msg.as_str()),
        }
    }
}

/// What a directory entry names.
#[derive(Debug, Clone, Copy, PartialEq, Eq, Structural)]
pub enum EntryType {
    Stream,
    Directory,
}

/// One entry of a directory listing.
#[derive(Debug)]
pub struct DirEntry {
    pub name: String,
    pub entry_type: EntryType,
}

/// How a stream, or the whole file, is opened.
#[derive(Debug, Clone, Copy, PartialEq, Eq, Structural)]
pub enum OpenMode {
    Read,
    Write,
}

impl EntryType {
    /// The number for the kind of an entry in a foreign interface.
    pub fn code(&self) -> (n: i32)
        ensures
            n == match self {
                EntryType::Stream => 0i32,
                EntryType::Directory => 1i32,
            },
    {
        match self {
            EntryType::Stream => 0,
            EntryType::Directory => 1,
        }
    }
}

impl OpenMode {
    /// The mode that a number of a foreign interface stands for.
    pub fn from_code(n: i32) -> (mode: Option<OpenMode>)
        ensures
            mode == match n {
                0i32 => Some(OpenMode::Read),
                1i32 => Some(OpenMode::Write),
                _ => None,
            },
    {
        if n == 0 {
            Some(OpenMode::Read)
        } else if n == 1 {
            Some(OpenMode::Write)
        } else {
            None
        }
    }
}

/// Which of the block caches a block access goes through.
#[derive(Debug, Clone, Copy, PartialEq, Eq, Structural)]
pub enum CacheMode {
    /// The access bypasses the caches.
    Bypass,
    /// The cache that belongs to the owner of the store.
    ThreadLocal,
    /// The cache of the table of streams.
    Shared,
}

/// Token for one header slot: the place where a layer keeps its own header.
#[derive(Debug, Clone, Copy, PartialEq, Eq, Structural)]
pub struct HeaderSlotId(pub(crate) u8);

impl HeaderSlotId {
    /// The position of the slot.
    pub closed spec fn pos(self) -> nat {
        self.0 as nat
    }

    /// The slot at position `index`.
    pub fn new(index: u8) -> (slot: HeaderSlotId)
        ensures
            slot.pos() == index,
    {
        HeaderSlotId(index)
    }

    /// The position of the slot, as a number.
    pub fn index(&self) -> (index: u8)
        ensures
            index == self.pos(),
    {
        self.0
    }
}

/// Handle of a stream that is open in the file system.
#[derive(Debug, Clone, Copy, PartialEq, Eq, Hash, Structural)]
pub struct StreamHandle(u64);

impl StreamHandle {
    /// The number that identifies the handle.
    pub closed spec fn num(self) -> u64 {
        self.0
    }

    pub fn id(&self) -> (id: u64)
        ensures
            id == self.num(),
    {
        self.0
    }

    pub fn from_id(id: u64) -> (handle: StreamHandle)
        ensures
            handle.num() == id,
    {
        StreamHandle(id)
    }
}

/// A handle is its number: it comes back from its number, and two handles with one
/// number are one handle.
pub proof fn law_handle_round_trip(handle: StreamHandle, other: StreamHandle, id: u64)
    ensures
        handle.num() == other.num() <==> handle == other,
        exists|h: StreamHandle| #[trigger] h.num() == id,
{
    assert(StreamHandle(id).num() == id);
}

/// `text` is among the issues.
pub open spec fn mentions(issues: Seq<String>, text: Seq<char>) -> bool {
    exists|i: int| 0 <= i < issues.len() && (#[trigger] issues[i])@ == text
}

/// What was reported stays reported when more issues come.
pub proof fn lemma_still_mentioned(before: Seq<String>, after: Seq<String>)
    requires
        before.is_prefix_of(after),
    ensures
        forall|text: Seq<char>| #[trigger] mentions(before, text) ==> mentions(after, text),
{
    assert forall|text: Seq<char>| #[trigger] mentions(before, text) implies mentions(after, text) by {
        let i = choose|i: int| 0 <= i < before.len() && (#[trigger] before[i])@ == text;
        assert(after.subrange(0, before.len() as int)[i] == after[i]);
    }
}

/// What was reported is reported behind other issues.
pub proof fn lemma_issues_around(before: Seq<String>, issues: Seq<String>)
    ensures
        forall|text: Seq<char>| #[trigger]
            mentions(issues, text) ==> mentions(before + issues, text),
{
    assert forall|text: Seq<char>| #[trigger] mentions(issues, text) implies mentions(
        before + issues,
        text,
    ) by {
        let i = choose|i: int| 0 <= i < issues.len() && (#[trigger] issues[i])@ == text;
        assert((before + issues)[before.len() + i] == issues[i]);
    }
}

/// The decimal digits of `n`, most significant first.
pub open spec fn decimal(n: nat) -> Seq<char>
    decreases n,
{
    if n < 10 {
        seq![digit(n)]
    } else {
        decimal(n / 10).push(digit(n % 10))
    }
}

/// The character of one decimal digit.
pub open spec fn digit(d: nat) -> char {
    (d + '0' as nat) as char
}

/// That `len` bytes at `offset` reach beyond a block of `size` bytes.
pub(crate) fn beyond_block(before: &str, offset: usize, len: usize, size: usize) -> (text: String)
    ensures
        text@ == before@ + decimal(offset as nat) + " + len "@ + decimal(len as nat)
            + " exceeds block_size "@ + decimal(size as nat) + ""@,
{
    let start: String = text_num(before, offset as u64, " + len ");
    let more: String = text_num(start.as_str(), len as u64, " exceeds block_size ");
    text_num(more.as_str(), size as u64, "")
}

/// One decimal digit.
fn digit_text(d: u64) -> (text: &'static str)
    requires
        d < 10,
    ensures
        text@ == seq![digit(d as nat)],
{
    proof {
        reveal_strlit("0");
        reveal_strlit("1");
        reveal_strlit("2");
        reveal_strlit("3");
        reveal_strlit("4");
        reveal_strlit("5");
        reveal_strlit("6");
        reveal_strlit("7");
        reveal_strlit("8");
        reveal_strlit("9");
    }
    match d {
        0 => "0",
        1 => "1",
        2 => "2",
        3 => "3",
        4 => "4",
        5 => "5",
        6 => "6",
        7 => "7",
        8 => "8",
        _ => "9",
    }
}

/// The decimal digits of `n`.
fn decimal_text(n: u64) -> (text: String)
    ensures
        text@ == decimal(n as nat),
    decreases n,
{
    if n < 10 {
        digit_text(n).to_owned()
    } else {
        let text: String = decimal_text(n / 10).concat(digit_text(n % 10));
        proof {
            assert(text@ =~= decimal(n as nat));
        }
        text
    }
}

/// `before`, then `n` in decimal, then `after`.
pub(crate) fn text_num(before: &str, n: u64, after: &str) -> (text: String)
    ensures
        text@ == before@ + decimal(n as nat) + after@,
{
    before.to_owned().concat(decimal_text(n).as_str()).concat(after)
}

} // verus!
