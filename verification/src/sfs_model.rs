//! What the calls of the file system do, as functions of its state.

use crate::block_layer::sentinel;
use crate::bytes::after_read;
use crate::dir_entries::{dir_bytes, entry_bytes, find, parsed, without, Entry};
use crate::names::{components, dir_name, dirs_of, leaf_of, valid_path};
use crate::pyramid::ceil_div;
use crate::stream_layer::{
    all_used, can_open, empty_stream, first_unused, grown_capacity, is_open, OpenState, StreamState,
};
use crate::types::{OpenMode, SfsError};
use vstd::prelude::*;
use vstd::utf8::encode_utf8;

verus! {

/// The kinds of errors.
#[derive(Debug, Clone, Copy, PartialEq, Eq, Structural)]
pub enum ErrorKind {
    NotFound,
    AlreadyExists,
    NotEmpty,
    InvalidPath,
    LockConflict,
    SeekOutOfBounds,
    IoError,
    ReadOnly,
}

/// The kind of an error.
pub open spec fn kind_of(e: SfsError) -> ErrorKind {
    match e {
        SfsError::NotFound(_) => ErrorKind::NotFound,
        SfsError::AlreadyExists(_) => ErrorKind::AlreadyExists,
        SfsError::NotEmpty(_) => ErrorKind::NotEmpty,
        SfsError::InvalidPath(_) => ErrorKind::InvalidPath,
        SfsError::LockConflict(_) => ErrorKind::LockConflict,
        SfsError::SeekOutOfBounds(_) => ErrorKind::SeekOutOfBounds,
        SfsError::IoError(_) => ErrorKind::IoError,
        SfsError::ReadOnly(_) => ErrorKind::ReadOnly,
    }
}

/// The state of a file system: its streams, the handles that are open on them,
/// the stream of the root directory and how the file was opened.
#[verifier::ext_equal]
#[verifier::reject_recursive_types(H)]
pub struct World<H> {
    pub streams: Map<u64, StreamState>,
    pub handles: Map<H, OpenState>,
    pub root: u64,
    pub mode: OpenMode,
    /// The number of bytes of a stream number in a directory entry.
    pub width: nat,
    /// The number of bytes by which the capacity of a stream grows.
    pub plain_unit: nat,
    /// The same for a compressed stream.
    pub packed_unit: nat,
    /// There can be compressed streams.
    pub compression: bool,
}

/// How a call ends.
pub enum Outcome<T> {
    /// It fails and changes nothing.
    Refused(ErrorKind),
    /// It fails half way: the streams have changed to these.
    Partly(ErrorKind, Map<u64, StreamState>),
    /// It fails because a directory would outgrow what a 64-bit size can tell.
    /// Nothing is said of the state after that.
    TooLarge,
    /// It does its work.
    Done(T),
}

/// What there is to read in a directory.
pub enum DirState {
    /// The directory cannot be opened, or its bytes are no list of entries.
    Refused(ErrorKind),
    Entries(Seq<Entry>),
}

/// `h1` holds one more handle than `h0`.
pub open spec fn left_open<H>(
    h0: Map<H, OpenState>,
    h1: Map<H, OpenState>,
    dir: u64,
    mode: OpenMode,
) -> bool {
    exists|h: H|
        !h0.contains_key(h) && h1 == #[trigger] h0.insert(h, OpenState { stream: dir, mode })
}

/// The state with other streams.
pub open spec fn with_streams<H>(wd: World<H>, streams: Map<u64, StreamState>) -> World<H> {
    World { streams, ..wd }
}

/// `r` and the state after the call, `w1`, are those of a call that ends as
/// `out` says, as far as it fails.
pub open spec fn follows<H, T, R>(
    out: Outcome<T>,
    w0: World<H>,
    w1: World<H>,
    r: Result<R, SfsError>,
) -> bool {
    match out {
        Outcome::Refused(kind) => r is Err && kind_of(r->Err_0) == kind && w1 == w0,
        Outcome::Partly(kind, streams) => r is Err && kind_of(r->Err_0) == kind && w1
            == with_streams(w0, streams),
        Outcome::TooLarge => r is Err && r->Err_0 is IoError,
        Outcome::Done(_) => r is Ok,
    }
}

/// The failure of one step as that of the whole call.
pub open spec fn passed_on<S, T>(out: Outcome<S>) -> Outcome<T> {
    match out {
        Outcome::Refused(kind) => Outcome::Refused(kind),
        Outcome::Partly(kind, streams) => Outcome::Partly(kind, streams),
        _ => Outcome::TooLarge,
    }
}

/// The number of bytes by which the capacity of a stream grows.
pub open spec fn unit_in<H>(wd: World<H>, compressed: bool) -> nat {
    if compressed {
        wd.packed_unit
    } else {
        wd.plain_unit
    }
}

/// Why stream `id` cannot be opened in `mode`, if it cannot.
pub open spec fn open_refused<H>(wd: World<H>, id: u64, mode: OpenMode) -> Option<ErrorKind> {
    if id == u64::MAX {
        Some(ErrorKind::InvalidPath)
    } else if !can_open(wd.handles, id, mode) {
        Some(ErrorKind::LockConflict)
    } else if !wd.streams.contains_key(id) {
        Some(ErrorKind::NotFound)
    } else {
        None
    }
}

/// What there is to read in directory `id`, opened in `mode`.
pub open spec fn read_dir<H>(wd: World<H>, id: u64, mode: OpenMode) -> DirState {
    match open_refused(wd, id, mode) {
        Some(kind) => DirState::Refused(kind),
        None => {
            let data = wd.streams[id].data;
            if data.len() > usize::MAX {
                DirState::Refused(ErrorKind::IoError)
            } else {
                match parsed(data, wd.width) {
                    Some(es) => DirState::Entries(es),
                    None => DirState::Refused(ErrorKind::IoError),
                }
            }
        },
    }
}

/// The directory that is reached from directory `cur` by `names`.
pub open spec fn walk<H>(wd: World<H>, cur: u64, names: Seq<Seq<u8>>) -> Outcome<u64>
    decreases names.len(),
{
    if names.len() == 0 {
        Outcome::Done(cur)
    } else {
        match read_dir(wd, cur, OpenMode::Read) {
            DirState::Refused(kind) => Outcome::Refused(kind),
            DirState::Entries(es) => match find(es, dir_name(names[0])) {
                None => Outcome::Refused(ErrorKind::NotFound),
                Some(id) => walk(wd, id, names.skip(1)),
            },
        }
    }
}

/// A walk from directory `cur` by `names` comes to a directory that does not have
/// the next name.
pub open spec fn strays<H>(wd: World<H>, cur: u64, names: Seq<Seq<u8>>) -> bool
    decreases names.len(),
{
    if names.len() == 0 {
        false
    } else {
        match read_dir(wd, cur, OpenMode::Read) {
            DirState::Refused(_) => false,
            DirState::Entries(es) => match find(es, dir_name(names[0])) {
                None => true,
                Some(id) => strays(wd, id, names.skip(1)),
            },
        }
    }
}

/// Directory `dir` can be opened in `mode` and has no entry `name`.
pub open spec fn lacks<H>(wd: World<H>, dir: u64, mode: OpenMode, name: Seq<u8>) -> bool {
    read_dir(wd, dir, mode) matches DirState::Entries(es) && find(es, name) is None
}

/// What is said where a directory on the way does not exist.
pub open spec fn no_parent() -> Seq<char> {
    "parent directory does not exist"@
}

/// An error of a call on `name` in directory `dir`, which `path` leads to, carries
/// that path: where the name is taken, where a directory is not empty and where
/// there is no such name.
pub open spec fn carries_path<H, R>(
    wd: World<H>,
    dir: u64,
    mode: OpenMode,
    name: Seq<u8>,
    path: Seq<char>,
    r: Result<R, SfsError>,
) -> bool {
    match r {
        Err(SfsError::AlreadyExists(said)) => said@ == path,
        Err(SfsError::NotEmpty(said)) => said@ == path,
        Err(SfsError::NotFound(said)) => lacks(wd, dir, mode, name) ==> said@ == path,
        _ => true,
    }
}

/// What an error of a call on `path`, whose last part is listed as `name`, carries:
/// the path, or that there is no directory to look in.
pub open spec fn tells_path<H, R>(
    wd: World<H>,
    mode: OpenMode,
    name: Seq<u8>,
    path: Seq<char>,
    r: Result<R, SfsError>,
) -> bool {
    let dirs = dirs_of(encode_utf8(path));
    match walk(wd, wd.root, dirs) {
        Outcome::Done(dir) => carries_path(wd, dir, mode, name, path, r),
        _ => r matches Err(SfsError::NotFound(said)) ==> strays(wd, wd.root, dirs) ==> said@
            == no_parent(),
    }
}

/// The error of a call that moves entry `name` from directory `from` carries the
/// new path where that is taken, and the old one where there is no such name.
pub open spec fn carries_paths<H, R>(
    wd: World<H>,
    from: u64,
    name: Seq<u8>,
    old_path: Seq<char>,
    new_path: Seq<char>,
    r: Result<R, SfsError>,
) -> bool {
    match r {
        Err(SfsError::AlreadyExists(said)) => said@ == new_path,
        Err(SfsError::NotFound(said)) => lacks(wd, from, OpenMode::Write, name) ==> said@
            == old_path,
        _ => true,
    }
}

/// What an error of a call that renames `old_path`, whose last part is listed as
/// `name`, carries: one of the paths, or that there is no directory to look in.
pub open spec fn tells_paths<H, R>(
    wd: World<H>,
    name: Seq<u8>,
    old_path: Seq<char>,
    new_path: Seq<char>,
    r: Result<R, SfsError>,
) -> bool {
    let old_dirs = dirs_of(encode_utf8(old_path));
    let new_dirs = dirs_of(encode_utf8(new_path));
    match walk(wd, wd.root, old_dirs) {
        Outcome::Done(from) => match walk(wd, wd.root, new_dirs) {
            Outcome::Done(_) => carries_paths(wd, from, name, old_path, new_path, r),
            _ => r matches Err(SfsError::NotFound(said)) ==> strays(wd, wd.root, new_dirs) ==> said@
                == no_parent(),
        },
        _ => r matches Err(SfsError::NotFound(said)) ==> strays(wd, wd.root, old_dirs) ==> said@
            == no_parent(),
    }
}

/// Why a path is refused before anything is read, if it is.
pub open spec fn path_refused<H>(wd: World<H>, path: Seq<u8>, writes: bool) -> Option<ErrorKind> {
    if writes && wd.mode is Read {
        Some(ErrorKind::ReadOnly)
    } else if path.len() == 0 || !valid_path(path) {
        Some(ErrorKind::InvalidPath)
    } else {
        None
    }
}

/// A stream with `bytes` in it, where it held something before and everything
/// is written anew.
pub open spec fn rewritten(s: StreamState, bytes: Seq<u8>, unit: nat) -> StreamState {
    StreamState {
        data: bytes,
        reserved: grown_capacity(0, bytes.len(), unit),
        compressed: s.compressed,
    }
}

/// A stream with `bytes` behind what it held.
pub open spec fn appended(s: StreamState, bytes: Seq<u8>, unit: nat) -> StreamState {
    StreamState {
        data: s.data + bytes,
        reserved: grown_capacity(s.reserved, s.data.len() + bytes.len(), unit),
        compressed: s.compressed,
    }
}

/// A capacity for `bytes` bytes can be told in 64 bits.
pub open spec fn has_room(reserved: nat, bytes: nat, unit: nat) -> bool {
    &&& bytes <= u64::MAX
    &&& bytes > reserved ==> ceil_div(bytes, unit) * unit <= u64::MAX
}

/// The smallest number that is no stream's.
pub open spec fn first_free(streams: Map<u64, StreamState>) -> u64 {
    choose|id: u64| first_unused(streams, id)
}

/// The streams after an entry was written behind those of directory `dir`.
pub open spec fn entry_added<H>(wd: World<H>, dir: u64, e: Entry) -> Outcome<Map<u64, StreamState>> {
    let s = wd.streams[dir];
    let bytes = entry_bytes(e, wd.width);
    let unit = unit_in(wd, s.compressed);
    if !has_room(s.reserved, s.data.len() + bytes.len(), unit) {
        Outcome::TooLarge
    } else {
        Outcome::Done(wd.streams.insert(dir, appended(s, bytes, unit)))
    }
}

/// The streams after the entries of directory `dir` were written anew.
pub open spec fn entries_set<H>(wd: World<H>, dir: u64, es: Seq<Entry>) -> Outcome<
    Map<u64, StreamState>,
> {
    let s = wd.streams[dir];
    let bytes = dir_bytes(es, wd.width);
    let unit = unit_in(wd, s.compressed);
    if !has_room(0, bytes.len(), unit) {
        Outcome::TooLarge
    } else {
        Outcome::Done(wd.streams.insert(dir, rewritten(s, bytes, unit)))
    }
}

/// Makes a new stream that `path` names: as a directory where `dir`, compressed
/// where `packed`. Gives its number and the streams.
pub open spec fn made<H>(wd: World<H>, path: Seq<u8>, dir: bool, packed: bool) -> Outcome<
    (u64, Map<u64, StreamState>),
> {
    match path_refused(wd, path, true) {
        Some(kind) => Outcome::Refused(kind),
        None => match walk(wd, wd.root, dirs_of(path)) {
            Outcome::Done(parent) => made_in(wd, parent, leaf_of(path), dir, packed),
            out => passed_on(out),
        },
    }
}

/// Makes a new stream in directory `parent`.
pub open spec fn made_in<H>(
    wd: World<H>,
    parent: u64,
    leaf: Seq<u8>,
    dir: bool,
    packed: bool,
) -> Outcome<(u64, Map<u64, StreamState>)> {
    match read_dir(wd, parent, OpenMode::Write) {
        DirState::Refused(kind) => Outcome::Refused(kind),
        DirState::Entries(es) => {
            if find(es, leaf) is Some || find(es, dir_name(leaf)) is Some {
                Outcome::Refused(ErrorKind::AlreadyExists)
            } else if (packed && !wd.compression) || all_used(wd.streams, sentinel(wd.width)) {
                Outcome::Refused(ErrorKind::IoError)
            } else {
                let id = first_free(wd.streams);
                let name = if dir {
                    dir_name(leaf)
                } else {
                    leaf
                };
                let more = with_streams(wd, wd.streams.insert(id, empty_stream(packed)));
                match entry_added(more, parent, Entry { id, name }) {
                    Outcome::Done(streams) => Outcome::Done((id, streams)),
                    out => passed_on(out),
                }
            }
        },
    }
}

/// The streams after stream `id`, which no directory names any more, was
/// deleted.
pub open spec fn deleted<H>(wd: World<H>, id: u64) -> Outcome<Map<u64, StreamState>> {
    if is_open(wd.handles, id) {
        Outcome::Partly(ErrorKind::LockConflict, wd.streams)
    } else if !wd.streams.contains_key(id) {
        Outcome::Partly(ErrorKind::NotFound, wd.streams)
    } else {
        Outcome::Done(wd.streams.remove(id))
    }
}

/// Takes the entries of a name out of directory `parent` and deletes the stream.
pub open spec fn unlinked<H>(wd: World<H>, parent: u64, es: Seq<Entry>, name: Seq<u8>, id: u64) -> Outcome<
    Map<u64, StreamState>,
> {
    match entries_set(wd, parent, without(es, name)) {
        Outcome::Done(streams) => deleted(with_streams(wd, streams), id),
        out => passed_on(out),
    }
}

/// Removes the empty directory that `path` names.
pub open spec fn dir_removed<H>(wd: World<H>, path: Seq<u8>) -> Outcome<Map<u64, StreamState>> {
    match path_refused(wd, path, true) {
        Some(kind) => Outcome::Refused(kind),
        None => match walk(wd, wd.root, dirs_of(path)) {
            Outcome::Done(parent) => dir_removed_in(wd, parent, dir_name(leaf_of(path))),
            out => passed_on(out),
        },
    }
}

/// Removes an empty directory from directory `parent`.
pub open spec fn dir_removed_in<H>(wd: World<H>, parent: u64, name: Seq<u8>) -> Outcome<
    Map<u64, StreamState>,
> {
    match read_dir(wd, parent, OpenMode::Write) {
        DirState::Refused(kind) => Outcome::Refused(kind),
        DirState::Entries(es) => match find(es, name) {
            None => Outcome::Refused(ErrorKind::NotFound),
            Some(id) => {
                match open_refused(wd, id, OpenMode::Read) {
                    Some(kind) => Outcome::Refused(kind),
                    None => if wd.streams[id].data.len() > 0 {
                        Outcome::Refused(ErrorKind::NotEmpty)
                    } else {
                        unlinked(wd, parent, es, name, id)
                    },
                }
            },
        },
    }
}

/// Deletes the stream that `path` names. `open` are the streams that are open.
pub open spec fn stream_removed<H>(wd: World<H>, open: Set<u64>, path: Seq<u8>) -> Outcome<
    Map<u64, StreamState>,
> {
    match path_refused(wd, path, true) {
        Some(kind) => Outcome::Refused(kind),
        None => match walk(wd, wd.root, dirs_of(path)) {
            Outcome::Done(parent) => stream_removed_in(wd, open, parent, leaf_of(path)),
            out => passed_on(out),
        },
    }
}

/// Deletes a stream of directory `parent`.
pub open spec fn stream_removed_in<H>(
    wd: World<H>,
    open: Set<u64>,
    parent: u64,
    name: Seq<u8>,
) -> Outcome<Map<u64, StreamState>> {
    match read_dir(wd, parent, OpenMode::Write) {
        DirState::Refused(kind) => Outcome::Refused(kind),
        DirState::Entries(es) => match find(es, name) {
            None => Outcome::Refused(ErrorKind::NotFound),
            Some(id) => if open.contains(id) {
                Outcome::Refused(ErrorKind::LockConflict)
            } else {
                unlinked(wd, parent, es, name, id)
            },
        },
    }
}

/// The name under which a stream or, where `dir`, a directory is listed.
pub open spec fn entry_name(leaf: Seq<u8>, dir: bool) -> Seq<u8> {
    if dir {
        dir_name(leaf)
    } else {
        leaf
    }
}

/// Renames a stream or, where `dir`, a directory.
pub open spec fn renamed<H>(
    wd: World<H>,
    open: Set<u64>,
    old_path: Seq<u8>,
    new_path: Seq<u8>,
    dir: bool,
) -> Outcome<Map<u64, StreamState>> {
    if wd.mode is Read {
        Outcome::Refused(ErrorKind::ReadOnly)
    } else if path_refused(wd, old_path, true) is Some || path_refused(wd, new_path, true) is Some {
        Outcome::Refused(ErrorKind::InvalidPath)
    } else if dir && components(old_path).is_prefix_of(dirs_of(new_path)) {
        // No directory can stand below itself.
        Outcome::Refused(ErrorKind::InvalidPath)
    } else {
        match walk(wd, wd.root, dirs_of(old_path)) {
            Outcome::Done(from) => match walk(wd, wd.root, dirs_of(new_path)) {
                Outcome::Done(to) => renamed_in(
                    wd,
                    open,
                    from,
                    leaf_of(old_path),
                    to,
                    leaf_of(new_path),
                    dir,
                ),
                out => passed_on(out),
            },
            out => passed_on(out),
        }
    }
}

/// Moves an entry from directory `from` to directory `to`, where nothing of the
/// new name stands.
pub open spec fn renamed_in<H>(
    wd: World<H>,
    open: Set<u64>,
    from: u64,
    old_leaf: Seq<u8>,
    to: u64,
    new_leaf: Seq<u8>,
    dir: bool,
) -> Outcome<Map<u64, StreamState>> {
    let old_name = entry_name(old_leaf, dir);
    let new_name = entry_name(new_leaf, dir);
    match read_dir(wd, from, OpenMode::Write) {
        DirState::Refused(kind) => Outcome::Refused(kind),
        DirState::Entries(es) => match find(es, old_name) {
            None => Outcome::Refused(ErrorKind::NotFound),
            Some(id) => {
                let rest = without(es, old_name);
                if !dir && open.contains(id) {
                    Outcome::Refused(ErrorKind::LockConflict)
                } else if from == to {
                    if find(es, new_leaf) is Some || find(es, dir_name(new_leaf)) is Some {
                        Outcome::Refused(ErrorKind::AlreadyExists)
                    } else {
                        entries_set(wd, from, rest.push(Entry { id, name: new_name }))
                    }
                } else {
                    match read_dir(wd, to, OpenMode::Write) {
                        DirState::Refused(kind) => Outcome::Refused(kind),
                        DirState::Entries(there) => if find(there, new_leaf) is Some || find(
                            there,
                            dir_name(new_leaf),
                        ) is Some {
                            Outcome::Refused(ErrorKind::AlreadyExists)
                        } else {
                            match entries_set(wd, from, rest) {
                                Outcome::Done(streams) => entry_added(
                                    with_streams(wd, streams),
                                    to,
                                    Entry { id, name: new_name },
                                ),
                                out => passed_on(out),
                            }
                        },
                    }
                }
            },
        },
    }
}

/// What is listed of the directory that `path` names; the empty path names the
/// root.
pub open spec fn dir_listed<H>(wd: World<H>, path: Seq<u8>) -> Outcome<Seq<Entry>> {
    if path.len() > 0 && !valid_path(path) {
        Outcome::Refused(ErrorKind::InvalidPath)
    } else {
        let names = if path.len() == 0 {
            Seq::empty()
        } else {
            components(path)
        };
        match walk(wd, wd.root, names) {
            Outcome::Done(dir) => match read_dir(wd, dir, OpenMode::Read) {
                DirState::Refused(kind) => Outcome::Refused(kind),
                DirState::Entries(es) => Outcome::Done(es),
            },
            out => passed_on(out),
        }
    }
}

/// The number of the stream that `path` names, where it can be opened in
/// `mode`.
pub open spec fn stream_found<H>(wd: World<H>, path: Seq<u8>, mode: OpenMode) -> Outcome<u64> {
    match path_refused(wd, path, mode is Write) {
        Some(kind) => Outcome::Refused(kind),
        None => match walk(wd, wd.root, dirs_of(path)) {
            Outcome::Done(parent) => stream_found_in(wd, parent, leaf_of(path), mode),
            out => passed_on(out),
        },
    }
}

/// The number of the stream of that name in directory `parent`.
pub open spec fn stream_found_in<H>(wd: World<H>, parent: u64, name: Seq<u8>, mode: OpenMode) -> Outcome<
    u64,
> {
    match read_dir(wd, parent, OpenMode::Read) {
        DirState::Refused(kind) => Outcome::Refused(kind),
        DirState::Entries(es) => match find(es, name) {
            None => Outcome::Refused(ErrorKind::NotFound),
            Some(id) => match open_refused(wd, id, mode) {
                Some(kind) => Outcome::Refused(kind),
                None => Outcome::Done(id),
            },
        },
    }
}

/// There is one smallest number that is no stream's.
pub proof fn lemma_first_free(streams: Map<u64, StreamState>, id: u64)
    requires
        first_unused(streams, id),
    ensures
        first_free(streams) == id,
{
    let other = first_free(streams);
    assert(first_unused(streams, other));
    if other < id {
        assert(streams.contains_key(other));
    }
    if id < other {
        assert(streams.contains_key(id));
    }
}

/// The streams that handles stand for are as they were.
pub open spec fn untouched<H>(wd: World<H>, streams: Map<u64, StreamState>) -> bool {
    forall|h: H| #[trigger]
        wd.handles.contains_key(h) ==> streams.contains_key(wd.handles[h].stream)
            && streams[wd.handles[h].stream] == wd.streams[wd.handles[h].stream]
}

/// Every handle stands for a stream that there is.
pub open spec fn handles_live<H>(wd: World<H>) -> bool {
    forall|h: H| #[trigger]
        wd.handles.contains_key(h) ==> wd.streams.contains_key(wd.handles[h].stream)
}

/// However the call ends, open streams are as they were.
pub open spec fn spares_open<H>(wd: World<H>, out: Outcome<Map<u64, StreamState>>) -> bool {
    match out {
        Outcome::Refused(_) => true,
        Outcome::Partly(_, streams) => untouched(wd, streams),
        Outcome::TooLarge => true,
        Outcome::Done(streams) => untouched(wd, streams),
    }
}

/// A directory that can be opened for writing is not open, so a change to it
/// leaves open streams as they are.
proof fn lemma_dir_change_spares<H>(wd: World<H>, dir: u64, s: StreamState)
    requires
        handles_live(wd),
        can_open(wd.handles, dir, OpenMode::Write),
    ensures
        untouched(wd, wd.streams.insert(dir, s)),
{
    assert forall|h: H| #[trigger] wd.handles.contains_key(h) implies wd.streams.insert(
        dir,
        s,
    ).contains_key(wd.handles[h].stream) && wd.streams.insert(dir, s)[wd.handles[h].stream]
        == wd.streams[wd.handles[h].stream] by {
        assert(wd.handles[h].stream != dir);
    }
}

/// Making a stream leaves open streams as they are.
pub proof fn law_making_spares_open<H>(wd: World<H>, path: Seq<u8>, dir: bool, packed: bool)
    requires
        handles_live(wd),
    ensures
        match made(wd, path, dir, packed) {
            Outcome::Partly(_, _) => false,
            Outcome::Done(done) => untouched(wd, done.1) && !wd.streams.contains_key(done.0),
            _ => true,
        },
{
    lemma_walk(wd, wd.root, dirs_of(path));
    match walk(wd, wd.root, dirs_of(path)) {
        Outcome::Done(parent) => {
            match made_in(wd, parent, leaf_of(path), dir, packed) {
                Outcome::Done(done) => {
                    let id = done.0;
                    lemma_some_unused(wd.streams, sentinel(wd.width));
                    assert(first_unused(wd.streams, id));
                    let more = with_streams(wd, wd.streams.insert(id, empty_stream(packed)));
                    assert(handles_live(more)) by {
                        assert forall|h: H| #[trigger]
                            more.handles.contains_key(h) implies more.streams.contains_key(
                            more.handles[h].stream,
                        ) by {
                            assert(wd.handles.contains_key(h));
                        }
                    }
                    lemma_dir_change_spares(more, parent, done.1[parent]);
                    assert forall|h: H| #[trigger] wd.handles.contains_key(h) implies done.1.contains_key(
                    wd.handles[h].stream) && done.1[wd.handles[h].stream]
                        == wd.streams[wd.handles[h].stream] by {
                        assert(more.handles.contains_key(h));
                    }
                },
                _ => {},
            }
        },
        _ => {},
    }
}

/// A stream that was made is there, and empty.
pub proof fn lemma_made_new<H>(wd: World<H>, path: Seq<u8>, dir: bool, packed: bool)
    requires
        handles_live(wd),
    ensures
        made(wd, path, dir, packed) matches Outcome::Done(done) ==> done.1.contains_key(done.0)
            && done.1[done.0] == empty_stream(packed),
{
    law_making_spares_open(wd, path, dir, packed);
    match made(wd, path, dir, packed) {
        Outcome::Done(done) => {
            let parent = walk(wd, wd.root, dirs_of(path))->Done_0;
            assert(parent != done.0);
        },
        _ => {},
    }
}

/// A walk changes no stream.
pub proof fn lemma_walk<H>(wd: World<H>, cur: u64, names: Seq<Seq<u8>>)
    ensures
        match walk(wd, cur, names) {
            Outcome::Partly(_, _) => false,
            Outcome::TooLarge => false,
            _ => true,
        },
    decreases names.len(),
{
    if names.len() > 0 {
        match read_dir(wd, cur, OpenMode::Read) {
            DirState::Entries(es) => match find(es, dir_name(names[0])) {
                Some(id) => {
                    lemma_walk(wd, id, names.skip(1));
                },
                None => {},
            },
            _ => {},
        }
    }
}

/// Where not all numbers below a limit are used, there is a smallest that is
/// not.
pub proof fn lemma_some_unused(streams: Map<u64, StreamState>, limit: nat)
    requires
        !all_used(streams, limit),
    ensures
        exists|id: u64| first_unused(streams, id),
{
    let some = choose|j: u64| j < limit && !#[trigger] streams.contains_key(j);
    lemma_least_unused(streams, some);
}

proof fn lemma_least_unused(streams: Map<u64, StreamState>, some: u64)
    requires
        !streams.contains_key(some),
    ensures
        exists|id: u64| first_unused(streams, id),
    decreases some,
{
    if exists|j: u64| j < some && !#[trigger] streams.contains_key(j) {
        let j = choose|j: u64| j < some && !#[trigger] streams.contains_key(j);
        lemma_least_unused(streams, j);
    } else {
        assert(first_unused(streams, some));
    }
}

proof fn lemma_unlinked_spares<H>(wd: World<H>, parent: u64, es: Seq<Entry>, name: Seq<u8>, id: u64)
    requires
        handles_live(wd),
        can_open(wd.handles, parent, OpenMode::Write),
    ensures
        spares_open(wd, unlinked(wd, parent, es, name, id)),
{
    match entries_set(wd, parent, without(es, name)) {
        Outcome::Done(streams) => {
            lemma_dir_change_spares(wd, parent, streams[parent]);
            assert(untouched(wd, streams));
            if !is_open(wd.handles, id) {
                assert forall|h: H| #[trigger] wd.handles.contains_key(h) implies streams.remove(
                    id,
                ).contains_key(wd.handles[h].stream) && streams.remove(id)[wd.handles[h].stream]
                    == wd.streams[wd.handles[h].stream] by {
                    assert(wd.handles[h].stream != id);
                }
            }
        },
        _ => {},
    }
}

/// Removing a directory leaves open streams as they are.
pub proof fn law_dir_removal_spares_open<H>(wd: World<H>, path: Seq<u8>)
    requires
        handles_live(wd),
    ensures
        spares_open(wd, dir_removed(wd, path)),
{
    lemma_walk(wd, wd.root, dirs_of(path));
    match walk(wd, wd.root, dirs_of(path)) {
        Outcome::Done(parent) => {
            let name = dir_name(leaf_of(path));
            match read_dir(wd, parent, OpenMode::Write) {
                DirState::Entries(es) => match find(es, name) {
                    Some(id) => {
                        lemma_unlinked_spares(wd, parent, es, name, id);
                    },
                    None => {},
                },
                _ => {},
            }
        },
        _ => {},
    }
}

/// Deleting a stream leaves open streams as they are.
pub proof fn law_stream_removal_spares_open<H>(wd: World<H>, open: Set<u64>, path: Seq<u8>)
    requires
        handles_live(wd),
    ensures
        spares_open(wd, stream_removed(wd, open, path)),
{
    lemma_walk(wd, wd.root, dirs_of(path));
    match walk(wd, wd.root, dirs_of(path)) {
        Outcome::Done(parent) => {
            let name = leaf_of(path);
            match read_dir(wd, parent, OpenMode::Write) {
                DirState::Entries(es) => match find(es, name) {
                    Some(id) => {
                        lemma_unlinked_spares(wd, parent, es, name, id);
                    },
                    None => {},
                },
                _ => {},
            }
        },
        _ => {},
    }
}

/// Renaming leaves open streams as they are.
pub proof fn law_renaming_spares_open<H>(
    wd: World<H>,
    open: Set<u64>,
    old_path: Seq<u8>,
    new_path: Seq<u8>,
    dir: bool,
)
    requires
        handles_live(wd),
    ensures
        spares_open(wd, renamed(wd, open, old_path, new_path, dir)),
{
    lemma_walk(wd, wd.root, dirs_of(old_path));
    lemma_walk(wd, wd.root, dirs_of(new_path));
    match (walk(wd, wd.root, dirs_of(old_path)), walk(wd, wd.root, dirs_of(new_path))) {
        (Outcome::Done(from), Outcome::Done(to)) => {
            let old_name = entry_name(leaf_of(old_path), dir);
            match read_dir(wd, from, OpenMode::Write) {
                DirState::Entries(es) => match find(es, old_name) {
                    Some(id) => {
                        let rest = without(es, old_name);
                        let e = Entry { id, name: entry_name(leaf_of(new_path), dir) };
                        if from == to {
                            match entries_set(wd, from, rest.push(e)) {
                                Outcome::Done(streams) => {
                                    lemma_dir_change_spares(wd, from, streams[from]);
                                },
                                _ => {},
                            }
                        } else if can_open(wd.handles, to, OpenMode::Write) {
                            match entries_set(wd, from, rest) {
                                Outcome::Done(streams) => {
                                    lemma_dir_change_spares(wd, from, streams[from]);
                                    lemma_moved_spares(wd, streams, to, e);
                                },
                                _ => {},
                            }
                        }
                    },
                    None => {},
                },
                _ => {},
            }
        },
        _ => {},
    }
}

proof fn lemma_moved_spares<H>(wd: World<H>, streams: Map<u64, StreamState>, to: u64, e: Entry)
    requires
        untouched(wd, streams),
        can_open(wd.handles, to, OpenMode::Write),
    ensures
        spares_open(wd, entry_added(with_streams(wd, streams), to, e)),
{
    let w1 = with_streams(wd, streams);
    assert(handles_live(w1)) by {
        assert forall|h: H| #[trigger] w1.handles.contains_key(h) implies w1.streams.contains_key(
        w1.handles[h].stream) by {
            assert(wd.handles.contains_key(h));
        }
    }
    match entry_added(w1, to, e) {
        Outcome::Done(done) => {
            lemma_dir_change_spares(w1, to, done[to]);
            assert forall|h: H| #[trigger] wd.handles.contains_key(h) implies done.contains_key(
            wd.handles[h].stream) && done[wd.handles[h].stream]
                == wd.streams[wd.handles[h].stream] by {
                assert(w1.handles.contains_key(h));
            }
        },
        _ => {},
    }
}

/// `data` with `buf` written at `pos`, which does not lie behind its end.
pub open spec fn spliced(data: Seq<u8>, pos: int, buf: Seq<u8>) -> Seq<u8> {
    let end = pos + buf.len();
    if end < data.len() {
        data.take(pos) + buf + data.skip(end)
    } else {
        data.take(pos) + buf
    }
}

/// What was written is read back where it was written, and all else as it was.
pub proof fn law_written_read(data: Seq<u8>, pos: int, buf: Seq<u8>)
    requires
        0 <= pos <= data.len(),
    ensures
        ({
            let after = spliced(data, pos, buf);
            let end = pos + buf.len();
            &&& after.len() == if end < data.len() {
                data.len() as int
            } else {
                end
            }
            &&& after_read(after, pos, buf) == buf
            &&& after.subrange(pos, end) == buf
            &&& forall|i: int|
                0 <= i < data.len() && !(pos <= i < end) ==> #[trigger] after[i] == data[i]
        }),
{
    let after = spliced(data, pos, buf);
    let end = pos + buf.len();
    assert(after.subrange(pos, end) =~= buf);
    assert(after_read(after, pos, buf) =~= buf) by {
        assert forall|i: int| 0 <= i < buf.len() implies #[trigger] after[pos + i] == buf[i] by {}
    }
    assert forall|i: int| 0 <= i < data.len() && !(pos <= i < end) implies #[trigger] after[i]
        == data[i] by {}
}

} // verus!
