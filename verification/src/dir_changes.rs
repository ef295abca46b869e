//! Changes to the directory tree.

use crate::dir_entries::{
    entry_views, find, find_entry, parsed, remove_entries, without, Entry, StreamEntry,
};
use crate::dir_ops::{append_entry, kept, open_dir, rewrite_entries, world_of};
use crate::names::{dir_name, with_slash};
use crate::sfs_model::{
    carries_path, carries_paths, dir_removed_in, entry_name, follows, kind_of, lemma_first_free,
    made_in, read_dir, renamed_in, stream_removed_in, unlinked, with_streams, DirState, Outcome,
    World,
};
use crate::stream_layer::{can_open, empty_stream, OpenState, StreamLayer, StreamState};
use crate::types::{OpenMode, SfsError};
use vstd::prelude::*;

verus! {

/// A copy of a name.
fn copied(name: &[u8]) -> (copy: Vec<u8>)
    ensures
        copy@ == name@,
{
    let copy: Vec<u8> = crate::bytes::copy_range(name, 0, name.len());
    proof {
        assert(copy@ =~= name@);
    }
    copy
}

/// The name of an entry for a stream or a directory.
fn name_of_entry(leaf: &[u8], dir: bool) -> (name: Vec<u8>)
    ensures
        name@ == entry_name(leaf@, dir),
{
    if dir {
        with_slash(leaf)
    } else {
        copied(leaf)
    }
}

/// `id` is in the list.
fn listed_in(ids: &Vec<u64>, id: u64) -> (found: bool)
    ensures
        found == ids@.contains(id),
{
    let mut i: usize = 0;
    while i < ids.len()
        invariant
            i <= ids@.len(),
            forall|j: int| 0 <= j < i ==> ids@[j] != id,
        decreases ids@.len() - i,
    {
        if ids[i] == id {
            return true;
        }
        i = i + 1;
    }
    false
}

/// The handle `h` was opened on `w0` and is closed again.
proof fn lemma_closed_again<H>(
    w0: World<H>,
    w1: World<H>,
    w2: World<H>,
    h: H,
    id: u64,
    mode: OpenMode,
    streams: Map<u64, StreamState>,
)
    requires
        !w0.handles.contains_key(h),
        w1 == (World { streams, handles: w0.handles.insert(h, OpenState { stream: id, mode }), ..w0
        }),
        w2 == (World { handles: w1.handles.remove(h), ..w1 }),
    ensures
        w2 == with_streams(w0, streams),
{
    assert(w2.handles =~= w0.handles);
}

/// Opens a directory for writing that can be opened so.
fn open_to_write<L3: StreamLayer>(layer3: &mut L3, dir: u64, Ghost(w0): Ghost<World<L3::Handle>>) -> (r:
    Result<L3::Handle, SfsError>)
    requires
        old(layer3).wf(),
        world_of(*old(layer3), w0.root, w0.mode) == w0,
        w0.streams.contains_key(dir),
        can_open(w0.handles, dir, OpenMode::Write),
    ensures
        final(layer3).faults() >= old(layer3).faults(),
        r is Ok <==> final(layer3).faults() == old(layer3).faults(),
        r matches Ok(handle) ==> {
            &&& final(layer3).wf()
            &&& kept(*old(layer3), *final(layer3))
            &&& !w0.handles.contains_key(handle)
            &&& world_of(*final(layer3), w0.root, w0.mode) == (World {
                handles: w0.handles.insert(
                    handle,
                    OpenState { stream: dir, mode: OpenMode::Write },
                ),
                ..w0
            })
        },
{
    layer3.open_stream_blocking(dir, OpenMode::Write)
}

/// Closes a directory that is open for writing.
fn close_written<L3: StreamLayer>(
    layer3: &mut L3,
    handle: L3::Handle,
    Ghost(dir): Ghost<u64>,
    Ghost(w0): Ghost<World<L3::Handle>>,
) -> (r: Result<(), SfsError>)
    requires
        old(layer3).wf(),
        !w0.handles.contains_key(handle),
        world_of(*old(layer3), w0.root, w0.mode) == (World {
            streams: old(layer3).streams(),
            handles: w0.handles.insert(handle, OpenState { stream: dir, mode: OpenMode::Write }),
            ..w0
        }),
    ensures
        final(layer3).faults() >= old(layer3).faults(),
        r is Ok <==> final(layer3).faults() == old(layer3).faults(),
        r is Ok ==> {
            &&& final(layer3).wf()
            &&& kept(*old(layer3), *final(layer3))
            &&& world_of(*final(layer3), w0.root, w0.mode) == with_streams(
                w0,
                old(layer3).streams(),
            )
        },
{
    let ghost w1 = world_of(*layer3, w0.root, w0.mode);
    assert(layer3.handles().contains_key(handle));
    let r = layer3.close_stream(handle);
    proof {
        if r is Ok {
            lemma_closed_again(
                w0,
                w1,
                world_of(*layer3, w0.root, w0.mode),
                handle,
                dir,
                OpenMode::Write,
                w1.streams,
            );
        }
    }
    r
}

/// Reads the entries of a directory that can be opened for writing.
fn read_to_write<L3: StreamLayer>(layer3: &mut L3, dir: u64, Ghost(w0): Ghost<World<L3::Handle>>) -> (r:
    Result<Vec<StreamEntry>, SfsError>)
    requires
        old(layer3).wf(),
        world_of(*old(layer3), w0.root, w0.mode) == w0,
    ensures
        final(layer3).faults() >= old(layer3).faults(),
        r is Ok ==> final(layer3).faults() == old(layer3).faults(),
        final(layer3).faults() == old(layer3).faults() ==> {
            &&& final(layer3).wf()
            &&& kept(*old(layer3), *final(layer3))
            &&& world_of(*final(layer3), w0.root, w0.mode) == w0
            &&& match read_dir(w0, dir, OpenMode::Write) {
                DirState::Refused(kind) => r is Err && kind_of(r->Err_0) == kind,
                DirState::Entries(es) => {
                    &&& r matches Ok(entries)
                    &&& entry_views(entries@) == es
                    &&& w0.streams.contains_key(dir)
                    &&& can_open(w0.handles, dir, OpenMode::Write)
                    &&& parsed(w0.streams[dir].data, w0.width) == Some(es)
                },
            }
        },
{
    let (handle, entries) = match open_dir(
        layer3,
        dir,
        OpenMode::Write,
        Ghost(w0.root),
        Ghost(w0.mode),
    ) {
        Ok(found) => found,
        Err(e) => {
            return Err(e);
        },
    };
    match close_written(layer3, handle, Ghost(dir), Ghost(w0)) {
        Ok(_) => {},
        Err(e) => {
            return Err(e);
        },
    }
    proof {
        assert(with_streams(w0, w0.streams) =~= w0);
    }
    Ok(entries)
}

/// Whether a stream or a directory of that name stands among the entries.
fn name_taken(entries: &Vec<StreamEntry>, leaf: &[u8]) -> (taken: bool)
    ensures
        taken == (find(entry_views(entries@), leaf@) is Some || find(
            entry_views(entries@),
            dir_name(leaf@),
        ) is Some),
{
    let dir_entry_name: Vec<u8> = with_slash(leaf);
    find_entry(entries, leaf).is_some() || find_entry(entries, dir_entry_name.as_slice()).is_some()
}

/// Makes a new stream in a directory, and gives its number.
pub(crate) fn make_in<L3: StreamLayer>(
    layer3: &mut L3,
    parent: u64,
    leaf: &[u8],
    dir: bool,
    packed: bool,
    path: &str,
    Ghost(root): Ghost<u64>,
    Ghost(mode): Ghost<OpenMode>,
) -> (r: Result<u64, SfsError>)
    requires
        old(layer3).wf(),
    ensures
        final(layer3).faults() >= old(layer3).faults(),
        r is Ok ==> final(layer3).faults() == old(layer3).faults(),
        final(layer3).faults() == old(layer3).faults() ==> {
            let w0 = world_of(*old(layer3), root, mode);
            let w1 = world_of(*final(layer3), root, mode);
            let out = made_in(w0, parent, leaf@, dir, packed);
            &&& final(layer3).wf()
            &&& kept(*old(layer3), *final(layer3))
            &&& follows(out, w0, w1, r)
            &&& carries_path(w0, parent, OpenMode::Write, leaf@, path@, r)
            &&& out matches Outcome::Done(done) ==> {
                &&& r == Ok::<u64, SfsError>(done.0)
                &&& w1 == with_streams(w0, done.1)
            }
        },
{
    let ghost w0 = world_of(*layer3, root, mode);
    let name: Vec<u8> = name_of_entry(leaf, dir);
    let entries: Vec<StreamEntry> = match read_to_write(layer3, parent, Ghost(w0)) {
        Ok(entries) => entries,
        Err(e) => {
            return Err(e);
        },
    };
    if name_taken(&entries, leaf) {
        return Err(SfsError::AlreadyExists(path.to_owned()));
    }
    let id: u64 = match layer3.create_stream(packed) {
        Ok(id) => id,
        Err(e) => {
            return Err(e);
        },
    };
    let ghost w1 = world_of(*layer3, root, mode);
    proof {
        lemma_first_free(w0.streams, id);
        assert(w1 == with_streams(w0, w0.streams.insert(id, empty_stream(packed))));
    }
    let handle: L3::Handle = match open_to_write(layer3, parent, Ghost(w1)) {
        Ok(handle) => handle,
        Err(e) => {
            return Err(e);
        },
    };
    match append_entry(
        layer3,
        &handle,
        id,
        name.as_slice(),
        Ghost(parent),
        Ghost(root),
        Ghost(mode),
    ) {
        Ok(_) => {},
        Err(e) => {
            return Err(e);
        },
    }
    match close_written(layer3, handle, Ghost(parent), Ghost(w1)) {
        Ok(_) => {},
        Err(e) => {
            return Err(e);
        },
    }
    Ok(id)
}

/// Takes the entries of a name out of a directory that is open, closes it and
/// deletes the stream.
fn unlink<L3: StreamLayer>(
    layer3: &mut L3,
    handle: L3::Handle,
    parent: u64,
    entries: Vec<StreamEntry>,
    name: &[u8],
    id: u64,
    Ghost(w0): Ghost<World<L3::Handle>>,
) -> (r: Result<(), SfsError>)
    requires
        old(layer3).wf(),
        !w0.handles.contains_key(handle),
        world_of(*old(layer3), w0.root, w0.mode) == (World {
            handles: w0.handles.insert(
                handle,
                OpenState { stream: parent, mode: OpenMode::Write },
            ),
            ..w0
        }),
        old(layer3).streams()[parent].data.len() > 0,
    ensures
        final(layer3).faults() >= old(layer3).faults(),
        r is Ok ==> final(layer3).faults() == old(layer3).faults(),
        final(layer3).faults() == old(layer3).faults() ==> {
            let w1 = world_of(*final(layer3), w0.root, w0.mode);
            let out = unlinked(w0, parent, entry_views(entries@), name@, id);
            &&& final(layer3).wf()
            &&& kept(*old(layer3), *final(layer3))
            &&& follows(out, w0, w1, r)
            &&& out matches Outcome::Done(streams) ==> w1 == with_streams(w0, streams)
        },
{
    let ghost root = w0.root;
    let ghost mode = w0.mode;
    let kept_entries: Vec<StreamEntry> = remove_entries(entries, name);
    match rewrite_entries(
        layer3,
        &handle,
        &kept_entries,
        Ghost(parent),
        Ghost(root),
        Ghost(mode),
    ) {
        Ok(_) => {},
        Err(e) => {
            return Err(e);
        },
    }
    match close_written(layer3, handle, Ghost(parent), Ghost(w0)) {
        Ok(_) => {},
        Err(e) => {
            return Err(e);
        },
    }
    layer3.delete_stream(id)
}

/// Removes an empty directory from a directory.
pub(crate) fn remove_dir_in<L3: StreamLayer>(
    layer3: &mut L3,
    parent: u64,
    name: &[u8],
    path: &str,
    Ghost(root): Ghost<u64>,
    Ghost(mode): Ghost<OpenMode>,
) -> (r: Result<(), SfsError>)
    requires
        old(layer3).wf(),
    ensures
        final(layer3).faults() >= old(layer3).faults(),
        r is Ok ==> final(layer3).faults() == old(layer3).faults(),
        final(layer3).faults() == old(layer3).faults() ==> {
            let w0 = world_of(*old(layer3), root, mode);
            let w1 = world_of(*final(layer3), root, mode);
            let out = dir_removed_in(w0, parent, name@);
            &&& final(layer3).wf()
            &&& kept(*old(layer3), *final(layer3))
            &&& follows(out, w0, w1, r)
            &&& carries_path(w0, parent, OpenMode::Write, name@, path@, r)
            &&& out matches Outcome::Done(streams) ==> w1 == with_streams(w0, streams)
        },
{
    let ghost w0 = world_of(*layer3, root, mode);
    let entries: Vec<StreamEntry> = match read_to_write(layer3, parent, Ghost(w0)) {
        Ok(entries) => entries,
        Err(e) => {
            return Err(e);
        },
    };
    let id: u64 = match find_entry(&entries, name) {
        Some(id) => id,
        None => {
            return Err(SfsError::NotFound(path.to_owned()));
        },
    };
    proof {
        layer3.lemma_wf();
        lemma_found_somewhere(w0.streams[parent].data, w0.width, name@);
        // No stream has the largest number.
        if w0.streams.contains_key(u64::MAX) {
            crate::bytes::lemma_pow256_values();
            crate::bytes::lemma_pow256_monotone(layer3.iwidth(), 8);
        }
    }
    let child: L3::Handle = match layer3.open_stream_blocking(id, OpenMode::Read) {
        Ok(child) => child,
        Err(e) => {
            return Err(e);
        },
    };
    let child_len: u64 = match layer3.stream_length(&child) {
        Ok(len) => len,
        Err(e) => {
            return Err(e);
        },
    };
    match layer3.close_stream(child) {
        Ok(_) => {},
        Err(e) => {
            return Err(e);
        },
    }
    proof {
        assert(layer3.handles() =~= w0.handles);
        assert(world_of(*layer3, root, mode) =~= w0);
    }
    if child_len > 0 {
        return Err(SfsError::NotEmpty(path.to_owned()));
    }
    let handle: L3::Handle = match open_to_write(layer3, parent, Ghost(w0)) {
        Ok(handle) => handle,
        Err(e) => {
            return Err(e);
        },
    };
    unlink(layer3, handle, parent, entries, name, id, Ghost(w0))
}

/// A directory in which something is found is not empty.
proof fn lemma_found_somewhere(data: Seq<u8>, w: nat, name: Seq<u8>)
    requires
        parsed(data, w) is Some,
        find(parsed(data, w).unwrap(), name) is Some,
    ensures
        data.len() > 0,
{
    if data.len() == 0 {
        assert(parsed(data, w) == Some(Seq::<Entry>::empty()));
    }
}

/// Deletes a stream of a directory. `open` are the streams that are open.
pub(crate) fn remove_stream_in<L3: StreamLayer>(
    layer3: &mut L3,
    open: &Vec<u64>,
    parent: u64,
    name: &[u8],
    path: &str,
    Ghost(root): Ghost<u64>,
    Ghost(mode): Ghost<OpenMode>,
) -> (r: Result<(), SfsError>)
    requires
        old(layer3).wf(),
    ensures
        final(layer3).faults() >= old(layer3).faults(),
        r is Ok ==> final(layer3).faults() == old(layer3).faults(),
        final(layer3).faults() == old(layer3).faults() ==> {
            let w0 = world_of(*old(layer3), root, mode);
            let w1 = world_of(*final(layer3), root, mode);
            let out = stream_removed_in(w0, open@.to_set(), parent, name@);
            &&& final(layer3).wf()
            &&& kept(*old(layer3), *final(layer3))
            &&& follows(out, w0, w1, r)
            &&& carries_path(w0, parent, OpenMode::Write, name@, path@, r)
            &&& out matches Outcome::Done(streams) ==> w1 == with_streams(w0, streams)
        },
{
    let ghost w0 = world_of(*layer3, root, mode);
    let entries: Vec<StreamEntry> = match read_to_write(layer3, parent, Ghost(w0)) {
        Ok(entries) => entries,
        Err(e) => {
            return Err(e);
        },
    };
    let id: u64 = match find_entry(&entries, name) {
        Some(id) => id,
        None => {
            return Err(SfsError::NotFound(path.to_owned()));
        },
    };
    if listed_in(open, id) {
        return Err(SfsError::LockConflict("cannot delete an open stream".to_owned()));
    }
    proof {
        lemma_found_somewhere(w0.streams[parent].data, w0.width, name@);
    }
    let handle: L3::Handle = match open_to_write(layer3, parent, Ghost(w0)) {
        Ok(handle) => handle,
        Err(e) => {
            return Err(e);
        },
    };
    unlink(layer3, handle, parent, entries, name, id, Ghost(w0))
}

/// Moves an entry from one directory to another, or renames it in its place.
pub(crate) fn rename_in<L3: StreamLayer>(
    layer3: &mut L3,
    open: &Vec<u64>,
    from: u64,
    old_leaf: &[u8],
    to: u64,
    new_leaf: &[u8],
    dir: bool,
    old_path: &str,
    new_path: &str,
    Ghost(root): Ghost<u64>,
    Ghost(mode): Ghost<OpenMode>,
) -> (r: Result<(), SfsError>)
    requires
        old(layer3).wf(),
    ensures
        final(layer3).faults() >= old(layer3).faults(),
        r is Ok ==> final(layer3).faults() == old(layer3).faults(),
        final(layer3).faults() == old(layer3).faults() ==> {
            let w0 = world_of(*old(layer3), root, mode);
            let w1 = world_of(*final(layer3), root, mode);
            let out = renamed_in(w0, open@.to_set(), from, old_leaf@, to, new_leaf@, dir);
            &&& final(layer3).wf()
            &&& kept(*old(layer3), *final(layer3))
            &&& follows(out, w0, w1, r)
            &&& carries_paths(w0, from, entry_name(old_leaf@, dir), old_path@, new_path@, r)
            &&& out matches Outcome::Done(streams) ==> w1 == with_streams(w0, streams)
        },
{
    let ghost w0 = world_of(*layer3, root, mode);
    let old_name: Vec<u8> = name_of_entry(old_leaf, dir);
    let new_name: Vec<u8> = name_of_entry(new_leaf, dir);
    let entries: Vec<StreamEntry> = match read_to_write(layer3, from, Ghost(w0)) {
        Ok(entries) => entries,
        Err(e) => {
            return Err(e);
        },
    };
    let ghost es = entry_views(entries@);
    let id: u64 = match find_entry(&entries, old_name.as_slice()) {
        Some(id) => id,
        None => {
            return Err(SfsError::NotFound(old_path.to_owned()));
        },
    };
    if !dir && listed_in(open, id) {
        return Err(SfsError::LockConflict("cannot rename an open stream".to_owned()));
    }
    proof {
        lemma_found_somewhere(w0.streams[from].data, w0.width, old_name@);
    }
    let taken: bool = if from == to {
        name_taken(&entries, new_leaf)
    } else {
        match read_to_write(layer3, to, Ghost(w0)) {
            Ok(there) => name_taken(&there, new_leaf),
            Err(e) => {
                return Err(e);
            },
        }
    };
    if taken {
        return Err(SfsError::AlreadyExists(new_path.to_owned()));
    }
    let mut remaining: Vec<StreamEntry> = remove_entries(entries, old_name.as_slice());
    if from == to {
        let name: Vec<u8> = copied(new_name.as_slice());
        remaining.push(StreamEntry { id, name });
        proof {
            assert(entry_views(remaining@) =~= without(es, old_name@).push(
                Entry { id, name: new_name@ },
            ));
        }
    }
    let handle: L3::Handle = match open_to_write(layer3, from, Ghost(w0)) {
        Ok(handle) => handle,
        Err(e) => {
            return Err(e);
        },
    };
    match rewrite_entries(
        layer3,
        &handle,
        &remaining,
        Ghost(from),
        Ghost(root),
        Ghost(mode),
    ) {
        Ok(_) => {},
        Err(e) => {
            return Err(e);
        },
    }
    match close_written(layer3, handle, Ghost(from), Ghost(w0)) {
        Ok(_) => {},
        Err(e) => {
            return Err(e);
        },
    }
    if from == to {
        return Ok(());
    }
    let ghost w1 = world_of(*layer3, root, mode);
    let target: L3::Handle = match open_to_write(layer3, to, Ghost(w1)) {
        Ok(target) => target,
        Err(e) => {
            return Err(e);
        },
    };
    match append_entry(
        layer3,
        &target,
        id,
        new_name.as_slice(),
        Ghost(to),
        Ghost(root),
        Ghost(mode),
    ) {
        Ok(_) => {},
        Err(e) => {
            return Err(e);
        },
    }
    close_written(layer3, target, Ghost(to), Ghost(w1))
}

} // verus!
