//! What the calls of the file system give and change, from one state to the next:
//! told by the names of the path, the entries of the directories, and the bytes of the
//! streams. Each law holds of every call during which nothing failed in the storage.

use crate::call_laws::{
    can_be_moved, gone, in_use, law_dir_listed, law_dir_removed, law_dir_shut, law_grown_capacity,
    law_made, law_rename_refused, law_renamed, law_stream_deleted, law_stream_opened,
    law_unusable_path, least_unused, moved, only_holds, room, sized, spelt_without, stands_for,
    step_of, told_name,
};
use crate::dir_entries::{inserted, listed, listing, Entry, Listed};
use crate::names::{lemma_utf8_split, name_less, names_dir, SLASH};
use crate::sfs::{OpenView, Sfs};
use crate::sfs_model::{ErrorKind, Outcome, World};
use crate::stream_layer::{OpenState, StreamLayer, StreamState};
use crate::terms::{
    barred, can_be_spelt, capacity, first_named, holds, leads, misses, name_free, opens, reads,
    says, shut, spelt_one,
    stuck, unnamed, unreadable,
};
use crate::types::{DirEntry, EntryType, OpenMode, SfsError, StreamHandle};
use vstd::arithmetic::power::pow;
use vstd::prelude::*;
use vstd::utf8::{decode_utf8, encode_utf8, valid_utf8};

verus! {

/// The error is of that kind.
pub open spec fn tells(e: SfsError, kind: ErrorKind) -> bool {
    match kind {
        ErrorKind::NotFound => e is NotFound,
        ErrorKind::AlreadyExists => e is AlreadyExists,
        ErrorKind::NotEmpty => e is NotEmpty,
        ErrorKind::InvalidPath => e is InvalidPath,
        ErrorKind::LockConflict => e is LockConflict,
        ErrorKind::SeekOutOfBounds => e is SeekOutOfBounds,
        ErrorKind::IoError => e is IoError,
        ErrorKind::ReadOnly => e is ReadOnly,
    }
}

/// The call has failed for this reason and has changed nothing.
pub open spec fn refused<L3: StreamLayer, R>(
    a: Sfs<L3>,
    b: Sfs<L3>,
    r: Result<R, SfsError>,
    kind: ErrorKind,
) -> bool {
    r is Err && tells(r->Err_0, kind) && b.world() == a.world() && b.open_views() == a.open_views()
}

/// Some handle of the file system is open on stream `id`.
pub open spec fn opened<L3: StreamLayer>(a: Sfs<L3>, id: u64) -> bool {
    exists|k: u64| #[trigger] a.open_views().contains_key(k) && a.open_views()[k].stream == id
}

/// Nothing but the streams has changed.
pub open spec fn only_streams<L3: StreamLayer>(a: Sfs<L3>, b: Sfs<L3>) -> bool {
    &&& b.open_views() == a.open_views()
    &&& b.world().handles == a.world().handles
    &&& b.world().root == a.world().root
    &&& b.world().mode == a.world().mode
    &&& b.world().width == a.world().width
    &&& b.world().plain_unit == a.world().plain_unit
    &&& b.world().packed_unit == a.world().packed_unit
    &&& b.world().compression == a.world().compression
}

/// Handle `num` is new and stands at the start of stream `id`; what was open is open as
/// it was, and one handle more of that stream.
pub open spec fn one_more<L3: StreamLayer>(
    a: Sfs<L3>,
    b: Sfs<L3>,
    num: u64,
    id: u64,
    mode: OpenMode,
) -> bool {
    &&& !a.open_views().contains_key(num)
    &&& b.open_views() == a.open_views().insert(num, OpenView { stream: id, position: 0, mode })
    &&& exists|h: L3::Handle|
        !a.world().handles.contains_key(h) && b.world().handles == #[trigger] a.world().handles.insert(
            h,
            OpenState { stream: id, mode },
        )
    &&& b.world().root == a.world().root
    &&& b.world().mode == a.world().mode
    &&& b.world().width == a.world().width
    &&& b.world().plain_unit == a.world().plain_unit
    &&& b.world().packed_unit == a.world().packed_unit
    &&& b.world().compression == a.world().compression
}

proof fn lemma_open_set<L3: StreamLayer>(a: Sfs<L3>, id: u64)
    ensures
        a.open_set().contains(id) <==> opened(a, id),
{
}

// ---------------------------------------------------------------------------
// Opening and closing
// ---------------------------------------------------------------------------

/// Opening a stream gives a handle at the start of the stream that the path names, for
/// reading and for writing alike; it fails where there is none, and where what is open
/// stands in the way.
pub proof fn law_call_open_stream<L3: StreamLayer>(
    sfs: &mut Sfs<L3>,
    path: &str,
    mode: OpenMode,
    r: Result<StreamHandle, SfsError>,
    names: Seq<Seq<u8>>,
    d: u64,
    es: Seq<Entry>,
    id: u64,
    kind: ErrorKind,
)
    requires
        old(sfs).wf(),
        call_ensures(Sfs::<L3>::open_stream, (sfs, path, mode), r),
        final(sfs).faults() == old(sfs).faults(),
        says(encode_utf8(path@), names),
    ensures
        ({
            let a = *old(sfs);
            let b = *final(sfs);
            let wd = a.world();
            let leaf = names.last();
            let barring = mode is Write && wd.mode is Read;
            &&& b.wf()
            &&& barring ==> refused(a, b, r, ErrorKind::ReadOnly)
            &&& r is Ok <==> !barring && exists|i: u64| #[trigger] stands_for(wd, names, mode, i)
            &&& r is Ok && stands_for(wd, names, mode, id) ==> one_more(
                a,
                b,
                r->Ok_0.num(),
                id,
                mode,
            ) && b.world().streams == wd.streams
            &&& !barring ==> {
                &&& shut(wd, names.drop_last(), OpenMode::Read, kind) ==> refused(a, b, r, kind)
                &&& holds(wd, names.drop_last(), OpenMode::Read, d, es) && unnamed(es, leaf)
                    ==> refused(a, b, r, ErrorKind::NotFound)
                &&& holds(wd, names.drop_last(), OpenMode::Read, d, es) && first_named(
                    es,
                    leaf,
                    id,
                ) && !opens(wd, id, mode) && barred(wd, id, mode, kind) ==> refused(a, b, r, kind)
            }
        }),
{
    old(sfs).lemma_world();
    let wd = old(sfs).world();
    let p = encode_utf8(path@);
    law_stream_opened(wd, p, names, mode);
    match crate::sfs_model::stream_found(wd, p, mode) {
        Outcome::Done(i) => {
            assert(stands_for(wd, names, mode, i));
        },
        _ => {
            assert forall|i: u64| !(!(mode is Write && wd.mode is Read) && #[trigger] stands_for(
                wd,
                names,
                mode,
                i,
            )) by {}
        },
    }
}

/// Closing a handle takes it away and leaves the streams and all other handles as they
/// are; it fails where the handle is not open.
pub proof fn law_call_close_stream<L3: StreamLayer>(
    sfs: &mut Sfs<L3>,
    handle: StreamHandle,
    r: Result<(), SfsError>,
)
    requires
        old(sfs).wf(),
        call_ensures(Sfs::<L3>::close_stream, (sfs, handle), r),
        final(sfs).faults() == old(sfs).faults(),
    ensures
        ({
            let a = *old(sfs);
            let b = *final(sfs);
            let open = a.open_views();
            &&& b.wf()
            &&& r is Ok <==> open.contains_key(handle.num())
            &&& r is Err ==> refused(a, b, r, ErrorKind::NotFound)
            &&& b.world().streams == a.world().streams
            &&& b.open_views() == open.remove(handle.num())
            &&& r is Ok ==> exists|h: L3::Handle|
                !b.world().handles.contains_key(h) && a.world().handles
                    == #[trigger] b.world().handles.insert(
                    h,
                    OpenState { stream: open[handle.num()].stream, mode: open[handle.num()].mode },
                )
        }),
{
    let open = old(sfs).open_views();
    if r is Err {
        assert(open.remove(handle.num()) =~= open);
    }
}

// ---------------------------------------------------------------------------
// Making
// ---------------------------------------------------------------------------

/// The streams after stream `id` was made in directory `d`.
pub open spec fn one_stream_more<H>(
    wd: World<H>,
    streams: Map<u64, StreamState>,
    d: u64,
    id: u64,
    name: Seq<u8>,
    packed: bool,
) -> bool {
    &&& least_unused(wd.streams, id)
    &&& streams.contains_key(id)
    &&& streams[id] == (StreamState { data: Seq::empty(), reserved: 0, compressed: packed })
    &&& only_holds(
        wd,
        streams.remove(id),
        d,
        wd.streams[d].data + spelt_one(Entry { id, name }, wd.width),
        wd.streams[d].reserved,
    )
}

/// No number is left for a stream.
pub open spec fn full<H>(wd: World<H>) -> bool {
    forall|j: u64| (j as int) < pow(256, wd.width) - 1 ==> #[trigger] wd.streams.contains_key(j)
}

/// The directory has room for one entry more.
pub open spec fn room_for_name<H>(wd: World<H>, d: u64, name: Seq<u8>) -> bool {
    room(
        wd.streams[d].reserved,
        wd.streams[d].data.len() + 2 + wd.width + name.len(),
        step_of(wd, d),
    )
}

/// Making a directory writes its entry behind those of the directory above, for a new
/// and empty stream, and changes nothing else. It fails where the name is taken, by a
/// stream or a directory, and where the directory above cannot be reached.
pub proof fn law_call_mkdir<L3: StreamLayer>(
    sfs: &mut Sfs<L3>,
    path: &str,
    r: Result<(), SfsError>,
    names: Seq<Seq<u8>>,
    d: u64,
    es: Seq<Entry>,
    kind: ErrorKind,
)
    requires
        old(sfs).wf(),
        call_ensures(Sfs::<L3>::mkdir, (sfs, path), r),
        final(sfs).faults() == old(sfs).faults(),
        says(encode_utf8(path@), names),
    ensures
        ({
            let a = *old(sfs);
            let b = *final(sfs);
            let wd = a.world();
            let name = names.last().push(47u8);
            &&& wd.mode is Read ==> refused(a, b, r, ErrorKind::ReadOnly)
            &&& wd.mode is Write && shut(wd, names.drop_last(), OpenMode::Write, kind) ==> refused(
                a,
                b,
                r,
                kind,
            )
            &&& wd.mode is Write && holds(wd, names.drop_last(), OpenMode::Write, d, es) ==> {
                &&& !name_free(es, names.last()) ==> refused(a, b, r, ErrorKind::AlreadyExists)
                &&& name_free(es, names.last()) && full(wd) ==> refused(a, b, r, ErrorKind::IoError)
                &&& r is Ok <==> name_free(es, names.last()) && !full(wd) && room_for_name(
                    wd,
                    d,
                    name,
                )
                &&& r is Ok ==> only_streams(a, b) && b.wf() && exists|id: u64| #[trigger]
                    one_stream_more(wd, b.world().streams, d, id, name, false)
            }
        }),
{
    old(sfs).lemma_world();
    let wd = old(sfs).world();
    let p = encode_utf8(path@);
    assert(sized(wd));
    if wd.mode is Write {
        if shut(wd, names.drop_last(), OpenMode::Write, kind) {
            law_dir_shut(wd, Set::empty(), p, names, true, false, kind);
        }
        if holds(wd, names.drop_last(), OpenMode::Write, d, es) {
            law_made(wd, p, names, true, false, d, es);
            match crate::sfs_model::made(wd, p, true, false) {
                Outcome::Done((id, streams)) => {
                    assert(final(sfs).world().streams == streams);
                    assert(one_stream_more(
                        wd,
                        final(sfs).world().streams,
                        d,
                        id,
                        names.last().push(47u8),
                        false,
                    ));
                },
                _ => {},
            }
        }
    }
}

/// Creating a stream writes its entry behind those of the directory, for a new and
/// empty stream, gives a handle to write it, and changes nothing else. It fails where
/// the name is taken, by a stream or a directory, and where the directory cannot be
/// reached.
pub proof fn law_call_create_stream_as<L3: StreamLayer>(
    sfs: &mut Sfs<L3>,
    path: &str,
    compressed: bool,
    r: Result<StreamHandle, SfsError>,
    names: Seq<Seq<u8>>,
    d: u64,
    es: Seq<Entry>,
    kind: ErrorKind,
)
    requires
        old(sfs).wf(),
        call_ensures(Sfs::<L3>::create_stream_as, (sfs, path, compressed), r),
        final(sfs).faults() == old(sfs).faults(),
        says(encode_utf8(path@), names),
    ensures
        created(*old(sfs), *final(sfs), compressed, r, names, d, es, kind),
{
    old(sfs).lemma_world();
    lemma_created(*old(sfs), path@, compressed, names, d, es, kind);
    let wd = old(sfs).world();
    match crate::sfs_model::made(wd, encode_utf8(path@), false, compressed) {
        Outcome::Done((id, streams)) => {
            assert(final(sfs).world().streams == streams);
            assert(one_more(*old(sfs), *final(sfs), r->Ok_0.num(), id, OpenMode::Write));
            if wd.mode is Write && holds(wd, names.drop_last(), OpenMode::Write, d, es) {
                assert(one_stream_more(
                    wd,
                    final(sfs).world().streams,
                    d,
                    id,
                    names.last(),
                    compressed,
                ));
            }
        },
        _ => {},
    }
}

/// Creating a stream that is not said to be compressed gives one that is not.
pub proof fn law_call_create_stream<L3: StreamLayer>(
    sfs: &mut Sfs<L3>,
    path: &str,
    r: Result<StreamHandle, SfsError>,
    names: Seq<Seq<u8>>,
    d: u64,
    es: Seq<Entry>,
    kind: ErrorKind,
)
    requires
        old(sfs).wf(),
        call_ensures(Sfs::<L3>::create_stream, (sfs, path), r),
        final(sfs).faults() == old(sfs).faults(),
        says(encode_utf8(path@), names),
    ensures
        created(*old(sfs), *final(sfs), false, r, names, d, es, kind),
{
    old(sfs).lemma_world();
    lemma_created(*old(sfs), path@, false, names, d, es, kind);
    let wd = old(sfs).world();
    match crate::sfs_model::made(wd, encode_utf8(path@), false, false) {
        Outcome::Done((id, streams)) => {
            assert(final(sfs).world().streams == streams);
            assert(one_more(*old(sfs), *final(sfs), r->Ok_0.num(), id, OpenMode::Write));
            if wd.mode is Write && holds(wd, names.drop_last(), OpenMode::Write, d, es) {
                assert(one_stream_more(
                    wd,
                    final(sfs).world().streams,
                    d,
                    id,
                    names.last(),
                    false,
                ));
            }
        },
        _ => {},
    }
}

/// What creating a stream gives, told by the entries of the directory that it is
/// created in.
pub open spec fn created<L3: StreamLayer>(
    a: Sfs<L3>,
    b: Sfs<L3>,
    compressed: bool,
    r: Result<StreamHandle, SfsError>,
    names: Seq<Seq<u8>>,
    d: u64,
    es: Seq<Entry>,
    kind: ErrorKind,
) -> bool {
    let wd = a.world();
    let name = names.last();
    let lacking = full(wd) || (compressed && !wd.compression);
    &&& wd.mode is Read ==> refused(a, b, r, ErrorKind::ReadOnly)
    &&& wd.mode is Write && shut(wd, names.drop_last(), OpenMode::Write, kind) ==> refused(
        a,
        b,
        r,
        kind,
    )
    &&& wd.mode is Write && holds(wd, names.drop_last(), OpenMode::Write, d, es) ==> {
        &&& !name_free(es, name) ==> refused(a, b, r, ErrorKind::AlreadyExists)
        &&& name_free(es, name) && lacking ==> refused(a, b, r, ErrorKind::IoError)
        &&& r is Ok <==> name_free(es, name) && !lacking && room_for_name(wd, d, name)
        &&& r is Ok ==> exists|id: u64| #[trigger]
            one_stream_more(wd, b.world().streams, d, id, name, compressed) && one_more(
                a,
                b,
                r->Ok_0.num(),
                id,
                OpenMode::Write,
            )
    }
}

pub proof fn lemma_created<L3: StreamLayer>(
    a: Sfs<L3>,
    path: Seq<char>,
    compressed: bool,
    names: Seq<Seq<u8>>,
    d: u64,
    es: Seq<Entry>,
    kind: ErrorKind,
)
    requires
        a.wf(),
        says(encode_utf8(path), names),
    ensures
        ({
            let wd = a.world();
            let out = crate::sfs_model::made(wd, encode_utf8(path), false, compressed);
            let name = names.last();
            let lacking = full(wd) || (compressed && !wd.compression);
            &&& wd.mode is Read ==> out == Outcome::<(u64, Map<u64, StreamState>)>::Refused(
                ErrorKind::ReadOnly,
            )
            &&& wd.mode is Write && shut(wd, names.drop_last(), OpenMode::Write, kind) ==> out
                == Outcome::<(u64, Map<u64, StreamState>)>::Refused(kind)
            &&& wd.mode is Write && holds(wd, names.drop_last(), OpenMode::Write, d, es) ==> {
                &&& !name_free(es, name) ==> out == Outcome::<
                    (u64, Map<u64, StreamState>),
                >::Refused(ErrorKind::AlreadyExists)
                &&& name_free(es, name) && lacking ==> out == Outcome::<
                    (u64, Map<u64, StreamState>),
                >::Refused(ErrorKind::IoError)
                &&& out is Done <==> name_free(es, name) && !lacking && room_for_name(wd, d, name)
                &&& name_free(es, name) && !lacking && !(out is Done) ==> out is TooLarge
                &&& out matches Outcome::Done((id, streams)) ==> one_stream_more(
                    wd,
                    streams,
                    d,
                    id,
                    name,
                    compressed,
                )
            }
        }),
{
    a.lemma_world();
    let wd = a.world();
    let p = encode_utf8(path);
    assert(sized(wd));
    if wd.mode is Write {
        if shut(wd, names.drop_last(), OpenMode::Write, kind) {
            law_dir_shut(wd, Set::empty(), p, names, false, compressed, kind);
        }
        if holds(wd, names.drop_last(), OpenMode::Write, d, es) {
            law_made(wd, p, names, false, compressed, d, es);
        }
    }
}

// ---------------------------------------------------------------------------
// Removing
// ---------------------------------------------------------------------------

/// Deleting a stream takes its name and the stream away and changes nothing else. It
/// fails where there is no such name, and where that stream is itself open; whatever
/// else is open does not stand in its way.
pub proof fn law_call_delete_stream<L3: StreamLayer>(
    sfs: &mut Sfs<L3>,
    path: &str,
    r: Result<(), SfsError>,
    names: Seq<Seq<u8>>,
    d: u64,
    es: Seq<Entry>,
    id: u64,
    kind: ErrorKind,
)
    requires
        old(sfs).wf(),
        call_ensures(Sfs::<L3>::delete_stream, (sfs, path), r),
        final(sfs).faults() == old(sfs).faults(),
        says(encode_utf8(path@), names),
    ensures
        ({
            let a = *old(sfs);
            let b = *final(sfs);
            let wd = a.world();
            let name = names.last();
            let fits = room(0, spelt_without(es, name, wd.width).len(), step_of(wd, d));
            &&& wd.mode is Read ==> refused(a, b, r, ErrorKind::ReadOnly)
            &&& wd.mode is Write && shut(wd, names.drop_last(), OpenMode::Write, kind) ==> refused(
                a,
                b,
                r,
                kind,
            )
            &&& wd.mode is Write && holds(wd, names.drop_last(), OpenMode::Write, d, es) ==> {
                &&& unnamed(es, name) ==> refused(a, b, r, ErrorKind::NotFound)
                &&& first_named(es, name, id) && opened(a, id) ==> refused(
                    a,
                    b,
                    r,
                    ErrorKind::LockConflict,
                )
                &&& first_named(es, name, id) && !opened(a, id) && !in_use(wd, id)
                    && wd.streams.contains_key(id) ==> {
                    &&& r is Ok <==> fits
                    &&& r is Ok ==> b.wf() && only_streams(a, b) && gone(
                        wd,
                        b.world().streams,
                        d,
                        es,
                        name,
                        id,
                    )
                }
            }
        }),
{
    old(sfs).lemma_world();
    let wd = old(sfs).world();
    let open = old(sfs).open_set();
    let p = encode_utf8(path@);
    lemma_open_set(*old(sfs), id);
    assert(sized(wd));
    if wd.mode is Write {
        if shut(wd, names.drop_last(), OpenMode::Write, kind) {
            law_dir_shut(wd, open, p, names, false, false, kind);
        }
        if holds(wd, names.drop_last(), OpenMode::Write, d, es) {
            law_stream_deleted(wd, open, p, names, d, es, id);
        }
    }
}

/// Removing a directory takes its name and its stream away and changes nothing else. It
/// fails where there is no such name, where the directory is not empty, and where it
/// cannot be opened.
pub proof fn law_call_rmdir<L3: StreamLayer>(
    sfs: &mut Sfs<L3>,
    path: &str,
    r: Result<(), SfsError>,
    names: Seq<Seq<u8>>,
    d: u64,
    es: Seq<Entry>,
    id: u64,
    kind: ErrorKind,
)
    requires
        old(sfs).wf(),
        call_ensures(Sfs::<L3>::rmdir, (sfs, path), r),
        final(sfs).faults() == old(sfs).faults(),
        says(encode_utf8(path@), names),
    ensures
        ({
            let a = *old(sfs);
            let b = *final(sfs);
            let wd = a.world();
            let name = names.last().push(47u8);
            let fits = room(0, spelt_without(es, name, wd.width).len(), step_of(wd, d));
            &&& wd.mode is Read ==> refused(a, b, r, ErrorKind::ReadOnly)
            &&& wd.mode is Write && shut(wd, names.drop_last(), OpenMode::Write, kind) ==> refused(
                a,
                b,
                r,
                kind,
            )
            &&& wd.mode is Write && holds(wd, names.drop_last(), OpenMode::Write, d, es) ==> {
                &&& unnamed(es, name) ==> refused(a, b, r, ErrorKind::NotFound)
                &&& first_named(es, name, id) && !opens(wd, id, OpenMode::Read) && barred(
                    wd,
                    id,
                    OpenMode::Read,
                    kind,
                ) ==> refused(a, b, r, kind)
                &&& first_named(es, name, id) && opens(wd, id, OpenMode::Read)
                    && wd.streams[id].data.len() > 0 ==> refused(a, b, r, ErrorKind::NotEmpty)
                &&& first_named(es, name, id) && opens(wd, id, OpenMode::Read)
                    && wd.streams[id].data.len() == 0 && !in_use(wd, id) ==> {
                    &&& r is Ok <==> fits
                    &&& r is Ok ==> b.wf() && only_streams(a, b) && gone(
                        wd,
                        b.world().streams,
                        d,
                        es,
                        name,
                        id,
                    )
                }
            }
        }),
{
    old(sfs).lemma_world();
    let wd = old(sfs).world();
    let p = encode_utf8(path@);
    assert(sized(wd));
    if wd.mode is Write {
        if shut(wd, names.drop_last(), OpenMode::Write, kind) {
            law_dir_shut(wd, Set::empty(), p, names, false, false, kind);
        }
        if holds(wd, names.drop_last(), OpenMode::Write, d, es) {
            law_dir_removed(wd, p, names, d, es, id, kind);
        }
    }
}

// ---------------------------------------------------------------------------
// Renaming
// ---------------------------------------------------------------------------

/// What renaming gives, told by the entries of the directories that the old and the new
/// path lead to.
pub open spec fn renames<L3: StreamLayer>(
    a: Sfs<L3>,
    b: Sfs<L3>,
    r: Result<(), SfsError>,
    dir: bool,
    old_names: Seq<Seq<u8>>,
    new_names: Seq<Seq<u8>>,
    from: u64,
    es: Seq<Entry>,
    id: u64,
    to: u64,
    there: Seq<Entry>,
    kind: ErrorKind,
) -> bool {
    let wd = a.world();
    let old_name = told_name(old_names.last(), dir);
    let leaf = new_names.last();
    let rest = es.filter(|e: Entry| e.name != old_name);
    let e = Entry { id, name: told_name(leaf, dir) };
    let below = dir && old_names.is_prefix_of(new_names.drop_last());
    let found = first_named(es, old_name, id) && (dir || !opened(a, id));
    &&& wd.mode is Read ==> refused(a, b, r, ErrorKind::ReadOnly)
    &&& wd.mode is Write && below ==> refused(a, b, r, ErrorKind::InvalidPath)
    &&& wd.mode is Write && !below && stuck(wd, wd.root, old_names.drop_last(), kind) ==> refused(
        a,
        b,
        r,
        kind,
    )
    &&& wd.mode is Write && !below && leads(wd, wd.root, old_names.drop_last(), from) && stuck(
        wd,
        wd.root,
        new_names.drop_last(),
        kind,
    ) ==> refused(a, b, r, kind)
    &&& wd.mode is Write && !below && leads(wd, wd.root, old_names.drop_last(), from) && leads(
        wd,
        wd.root,
        new_names.drop_last(),
        to,
    ) ==> {
        &&& unreadable(wd, from, OpenMode::Write, kind) ==> refused(a, b, r, kind)
        &&& reads(wd, from, OpenMode::Write, es) ==> {
            &&& unnamed(es, old_name) ==> refused(a, b, r, ErrorKind::NotFound)
            &&& first_named(es, old_name, id) && !dir && opened(a, id) ==> refused(
                a,
                b,
                r,
                ErrorKind::LockConflict,
            )
            &&& found && unreadable(wd, to, OpenMode::Write, kind) ==> refused(a, b, r, kind)
            &&& found && reads(wd, to, OpenMode::Write, there) ==> {
                &&& !name_free(there, leaf) ==> refused(a, b, r, ErrorKind::AlreadyExists)
                &&& r is Ok <==> name_free(there, leaf) && can_be_moved(wd, from, rest, to, e)
                &&& r is Ok ==> b.wf() && only_streams(a, b) && moved(
                    wd,
                    b.world().streams,
                    from,
                    rest,
                    to,
                    e,
                )
            }
        }
    }
}

/// Renaming a stream.
pub proof fn law_call_rename_stream<L3: StreamLayer>(
    sfs: &mut Sfs<L3>,
    old_path: &str,
    new_path: &str,
    r: Result<(), SfsError>,
    old_names: Seq<Seq<u8>>,
    new_names: Seq<Seq<u8>>,
    from: u64,
    es: Seq<Entry>,
    id: u64,
    to: u64,
    there: Seq<Entry>,
    kind: ErrorKind,
)
    requires
        old(sfs).wf(),
        call_ensures(Sfs::<L3>::rename_stream, (sfs, old_path, new_path), r),
        final(sfs).faults() == old(sfs).faults(),
        says(encode_utf8(old_path@), old_names),
        says(encode_utf8(new_path@), new_names),
    ensures
        renames(
            *old(sfs),
            *final(sfs),
            r,
            false,
            old_names,
            new_names,
            from,
            es,
            id,
            to,
            there,
            kind,
        ),
{
    old(sfs).lemma_world();
    let wd = old(sfs).world();
    let open = old(sfs).open_set();
    let p = encode_utf8(old_path@);
    let q = encode_utf8(new_path@);
    lemma_open_set(*old(sfs), id);
    assert(sized(wd));
    if wd.mode is Write {
        law_rename_refused(wd, open, p, old_names, q, new_names, false, from, kind);
        if holds(wd, old_names.drop_last(), OpenMode::Write, from, es) && leads(
            wd,
            wd.root,
            new_names.drop_last(),
            to,
        ) {
            law_renamed(
                wd,
                open,
                p,
                old_names,
                q,
                new_names,
                false,
                from,
                es,
                id,
                to,
                there,
                kind,
            );
        }
    }
}

/// Renaming a directory.
pub proof fn law_call_rename_dir<L3: StreamLayer>(
    sfs: &mut Sfs<L3>,
    old_path: &str,
    new_path: &str,
    r: Result<(), SfsError>,
    old_names: Seq<Seq<u8>>,
    new_names: Seq<Seq<u8>>,
    from: u64,
    es: Seq<Entry>,
    id: u64,
    to: u64,
    there: Seq<Entry>,
    kind: ErrorKind,
)
    requires
        old(sfs).wf(),
        call_ensures(Sfs::<L3>::rename_dir, (sfs, old_path, new_path), r),
        final(sfs).faults() == old(sfs).faults(),
        says(encode_utf8(old_path@), old_names),
        says(encode_utf8(new_path@), new_names),
    ensures
        renames(
            *old(sfs),
            *final(sfs),
            r,
            true,
            old_names,
            new_names,
            from,
            es,
            id,
            to,
            there,
            kind,
        ),
{
    old(sfs).lemma_world();
    let wd = old(sfs).world();
    let open = old(sfs).open_set();
    let p = encode_utf8(old_path@);
    let q = encode_utf8(new_path@);
    assert(sized(wd));
    if wd.mode is Write {
        law_rename_refused(wd, open, p, old_names, q, new_names, true, from, kind);
        if !old_names.is_prefix_of(new_names.drop_last()) && holds(
            wd,
            old_names.drop_last(),
            OpenMode::Write,
            from,
            es,
        ) && leads(wd, wd.root, new_names.drop_last(), to) {
            law_renamed(
                wd,
                open,
                p,
                old_names,
                q,
                new_names,
                true,
                from,
                es,
                id,
                to,
                there,
                kind,
            );
        }
    }
}

// ---------------------------------------------------------------------------
// Paths that cannot be used
// ---------------------------------------------------------------------------

/// Where a path cannot be used, no call on it changes anything, and each is refused.
pub proof fn law_call_unusable<L3: StreamLayer>(
    sfs: &mut Sfs<L3>,
    path: &str,
    other: &str,
    mode: OpenMode,
    compressed: bool,
    done: Result<(), SfsError>,
    handle: Result<StreamHandle, SfsError>,
)
    requires
        old(sfs).wf(),
        final(sfs).faults() == old(sfs).faults(),
        forall|names: Seq<Seq<u8>>| !#[trigger] says(encode_utf8(path@), names),
    ensures
        ({
            let a = *old(sfs);
            let b = *final(sfs);
            let kind = if a.world().mode is Read {
                ErrorKind::ReadOnly
            } else {
                ErrorKind::InvalidPath
            };
            &&& call_ensures(Sfs::<L3>::mkdir, (sfs, path), done) ==> refused(a, b, done, kind)
            &&& call_ensures(Sfs::<L3>::rmdir, (sfs, path), done) ==> refused(a, b, done, kind)
            &&& call_ensures(Sfs::<L3>::delete_stream, (sfs, path), done) ==> refused(
                a,
                b,
                done,
                kind,
            )
            &&& call_ensures(Sfs::<L3>::rename_stream, (sfs, path, other), done) ==> refused(
                a,
                b,
                done,
                kind,
            )
            &&& call_ensures(Sfs::<L3>::rename_stream, (sfs, other, path), done) ==> refused(
                a,
                b,
                done,
                kind,
            )
            &&& call_ensures(Sfs::<L3>::rename_dir, (sfs, path, other), done) ==> refused(
                a,
                b,
                done,
                kind,
            )
            &&& call_ensures(Sfs::<L3>::rename_dir, (sfs, other, path), done) ==> refused(
                a,
                b,
                done,
                kind,
            )
            &&& call_ensures(Sfs::<L3>::create_stream, (sfs, path), handle) ==> refused(
                a,
                b,
                handle,
                kind,
            )
            &&& call_ensures(Sfs::<L3>::create_stream_as, (sfs, path, compressed), handle)
                ==> refused(a, b, handle, kind)
            &&& call_ensures(Sfs::<L3>::open_stream, (sfs, path, mode), handle) ==> refused(
                a,
                b,
                handle,
                if mode is Write {
                    kind
                } else {
                    ErrorKind::InvalidPath
                },
            )
        }),
{
    let wd = old(sfs).world();
    let p = encode_utf8(path@);
    let q = encode_utf8(other@);
    let open = old(sfs).open_set();
    law_unusable_path(wd, open, p, q, true, false, mode);
    law_unusable_path(wd, open, p, q, false, false, mode);
    law_unusable_path(wd, open, p, q, false, compressed, mode);
}

// ---------------------------------------------------------------------------
// Listing
// ---------------------------------------------------------------------------

/// What a line of a listing shows of an entry: its name without the slash of a
/// directory, and whether it is one.
pub open spec fn shown(e: Entry) -> (Seq<char>, EntryType) {
    if e.name.len() > 0 && e.name.last() == 47u8 {
        (decode_utf8(e.name.drop_last()), EntryType::Directory)
    } else {
        (decode_utf8(e.name), EntryType::Stream)
    }
}

/// Bytes `x` come before bytes `y`: they are the same up to some place, where `x` ends
/// or has the smaller byte.
pub open spec fn before(x: Seq<u8>, y: Seq<u8>) -> bool {
    exists|k: int|
        {
            &&& 0 <= k < y.len()
            &&& k <= x.len()
            &&& #[trigger] x.take(k) == y.take(k)
            &&& k == x.len() || x[k] < y[k]
        }
}

/// Names are ordered by the first byte in which they differ.
pub proof fn law_name_less(x: Seq<u8>, y: Seq<u8>)
    ensures
        name_less(x, y) <==> before(x, y),
    decreases x.len(),
{
    if y.len() > 0 && x.len() > 0 {
        let a = x.skip(1);
        let b = y.skip(1);
        law_name_less(a, b);
        if x[0] < y[0] {
            assert(x.take(0) =~= y.take(0));
        }
        if x[0] == y[0] && before(a, b) {
            let k = choose|k: int|
                {
                    &&& 0 <= k < b.len()
                    &&& k <= a.len()
                    &&& #[trigger] a.take(k) == b.take(k)
                    &&& k == a.len() || a[k] < b[k]
                };
            assert forall|i: int| 0 <= i < k + 1 implies x[i] == y[i] by {
                if i > 0 {
                    assert(a.take(k)[i - 1] == b.take(k)[i - 1]);
                }
            }
            assert(x.take(k + 1) =~= y.take(k + 1));
        }
        if before(x, y) {
            let k = choose|k: int|
                {
                    &&& 0 <= k < y.len()
                    &&& k <= x.len()
                    &&& #[trigger] x.take(k) == y.take(k)
                    &&& k == x.len() || x[k] < y[k]
                };
            if k > 0 {
                assert(x.take(k)[0] == y.take(k)[0]);
                assert forall|i: int| 0 <= i < k - 1 implies a[i] == b[i] by {
                    assert(x.take(k)[i + 1] == y.take(k)[i + 1]);
                }
                assert(a.take(k - 1) =~= b.take(k - 1));
            }
        }
    } else if y.len() > 0 {
        assert(x.take(0) =~= y.take(0));
    }
}

/// A line of a listing, as text.
spec fn line_shown(x: Listed) -> (Seq<char>, EntryType) {
    (decode_utf8(x.name), x.entry_type)
}

proof fn lemma_inserted_shown(list: Seq<Listed>, x: Listed)
    ensures
        inserted(list, x).map_values(|l: Listed| line_shown(l)).to_multiset() == list.map_values(
            |l: Listed| line_shown(l),
        ).to_multiset().insert(line_shown(x)),
    decreases list.len(),
{
    broadcast use vstd::seq_lib::group_to_multiset_ensures;

    let f = |l: Listed| line_shown(l);
    if list.len() == 0 {
        assert(inserted(list, x).map_values(f) =~= list.map_values(f).push(line_shown(x)));
    } else if name_less(x.name, list.last().name) {
        let less = list.drop_last();
        lemma_inserted_shown(less, x);
        let more = inserted(less, x);
        assert(inserted(list, x).map_values(f) =~= more.map_values(f).push(
            line_shown(list.last()),
        ));
        assert(list.map_values(f) =~= less.map_values(f).push(line_shown(list.last())));
        assert(inserted(list, x).map_values(f).to_multiset() =~= list.map_values(
            f,
        ).to_multiset().insert(line_shown(x)));
    } else {
        assert(inserted(list, x).map_values(f) =~= list.map_values(f).push(line_shown(x)));
    }
}

proof fn lemma_listing_shown(es: Seq<Entry>)
    ensures
        listing(es).map_values(|l: Listed| line_shown(l)).to_multiset() == es.map_values(
            |e: Entry| shown(e),
        ).to_multiset(),
    decreases es.len(),
{
    broadcast use vstd::seq_lib::group_to_multiset_ensures;

    let f = |l: Listed| line_shown(l);
    let g = |e: Entry| shown(e);
    if es.len() == 0 {
        assert(listing(es).map_values(f) =~= Seq::<(Seq<char>, EntryType)>::empty());
        assert(es.map_values(g) =~= Seq::<(Seq<char>, EntryType)>::empty());
    } else {
        let less = es.drop_last();
        lemma_listing_shown(less);
        lemma_inserted_shown(listing(less), listed(es.last()));
        assert(line_shown(listed(es.last())) == shown(es.last()));
        assert(es.map_values(g) =~= less.map_values(g).push(shown(es.last())));
    }
}

spec fn all_text(list: Seq<Listed>) -> bool {
    forall|i: int| 0 <= i < list.len() ==> valid_utf8((#[trigger] list[i]).name)
}

proof fn lemma_inserted_text(list: Seq<Listed>, x: Listed)
    requires
        all_text(list),
        valid_utf8(x.name),
    ensures
        all_text(inserted(list, x)),
    decreases list.len(),
{
    if list.len() > 0 && name_less(x.name, list.last().name) {
        lemma_inserted_text(list.drop_last(), x);
        assert(valid_utf8(list[list.len() - 1].name));
    }
}

/// The lines of a listing are text where the names of the entries are.
proof fn lemma_lines_text(es: Seq<Entry>, w: nat)
    requires
        can_be_spelt(es, w),
    ensures
        all_text(listing(es)),
    decreases es.len(),
{
    if es.len() > 0 {
        let less = es.drop_last();
        let e = es[es.len() - 1];
        assert forall|i: int| 0 <= i < less.len() implies {
            let e = #[trigger] less[i];
            2 + w + e.name.len() < 65536 && (e.id as int) < pow(256, w) && valid_utf8(e.name)
        } by {
            assert(less[i] == es[i]);
        }
        lemma_lines_text(less, w);
        if names_dir(e.name) {
            assert(e.name =~= e.name.drop_last() + seq![SLASH] + Seq::<u8>::empty());
            lemma_utf8_split(e.name.drop_last(), Seq::empty());
        }
        lemma_inserted_text(listing(less), listed(e));
    }
}

/// Listing a directory, the root or any other, shows every entry that it holds, each
/// once and no other, by name and kind, in the order of the bytes of the names, and
/// changes nothing.
pub proof fn law_call_list<L3: StreamLayer>(
    sfs: &mut Sfs<L3>,
    path: &str,
    r: Result<Vec<DirEntry>, SfsError>,
    names: Seq<Seq<u8>>,
    d: u64,
    es: Seq<Entry>,
    kind: ErrorKind,
)
    requires
        old(sfs).wf(),
        call_ensures(Sfs::<L3>::list, (sfs, path), r),
        final(sfs).faults() == old(sfs).faults(),
        says(encode_utf8(path@), names) || (encode_utf8(path@).len() == 0 && names.len() == 0),
    ensures
        ({
            let wd = old(sfs).world();
            &&& final(sfs).wf()
            &&& final(sfs).world() == wd
            &&& final(sfs).open_views() == old(sfs).open_views()
            &&& shut(wd, names, OpenMode::Read, kind) ==> refused(*old(sfs), *final(sfs), r, kind)
            &&& holds(wd, names, OpenMode::Read, d, es) ==> {
                &&& r is Ok
                &&& r->Ok_0@.len() == es.len()
                &&& r->Ok_0@.map_values(|x: DirEntry| (x.name@, x.entry_type)).to_multiset()
                    == es.map_values(|e: Entry| shown(e)).to_multiset()
                &&& forall|i: int, j: int|
                    0 <= i < j < r->Ok_0@.len() ==> !before(
                        encode_utf8((#[trigger] r->Ok_0@[j]).name@),
                        encode_utf8((#[trigger] r->Ok_0@[i]).name@),
                    )
            }
        }),
{
    old(sfs).lemma_world();
    let wd = old(sfs).world();
    let p = encode_utf8(path@);
    law_dir_listed(wd, p, names, es, kind);
    crate::call_laws::law_ways(wd, names, OpenMode::Read);
    if exists|k: ErrorKind| #[trigger] shut(wd, names, OpenMode::Read, k) {
        let k = choose|k: ErrorKind| #[trigger] shut(wd, names, OpenMode::Read, k);
        law_dir_listed(wd, p, names, es, k);
    } else {
        let (d2, e2) = choose|d2: u64, e2: Seq<Entry>| #[trigger]
            holds(wd, names, OpenMode::Read, d2, e2);
        law_dir_listed(wd, p, names, e2, kind);
    }
    if holds(wd, names, OpenMode::Read, d, es) {
        lemma_listing_shown(es);
        crate::dir_entries::lemma_listing_len(es);
        crate::dir_entries::law_listing_sorted(es);
        let list = r->Ok_0@;
        let lines = listing(es);
        assert(list.map_values(|x: DirEntry| (x.name@, x.entry_type)) =~= lines.map_values(
            |l: Listed| line_shown(l),
        ));
        lemma_lines_text(es, wd.width);
        assert forall|i: int, j: int| 0 <= i < j < list.len() implies !before(
            encode_utf8((#[trigger] list[j]).name@),
            encode_utf8((#[trigger] list[i]).name@),
        ) by {
            law_name_less(lines[j].name, lines[i].name);
            vstd::utf8::decode_utf8_encode_utf8(lines[i].name);
            vstd::utf8::decode_utf8_encode_utf8(lines[j].name);
        }
    }
}

/// Listing fails where the path is not empty and cannot be used.
pub proof fn law_call_list_unusable<L3: StreamLayer>(
    sfs: &mut Sfs<L3>,
    path: &str,
    r: Result<Vec<DirEntry>, SfsError>,
)
    requires
        old(sfs).wf(),
        call_ensures(Sfs::<L3>::list, (sfs, path), r),
        final(sfs).faults() == old(sfs).faults(),
        encode_utf8(path@).len() > 0,
        forall|names: Seq<Seq<u8>>| !#[trigger] says(encode_utf8(path@), names),
    ensures
        refused(*old(sfs), *final(sfs), r, ErrorKind::InvalidPath),
{
    let p = encode_utf8(path@);
    law_unusable_path(
        old(sfs).world(),
        Set::empty(),
        p,
        p,
        false,
        false,
        OpenMode::Read,
    );
}

// ---------------------------------------------------------------------------
// Bytes of an open stream
// ---------------------------------------------------------------------------

/// The smaller of two numbers.
pub open spec fn smaller(a: int, b: int) -> int {
    if a < b {
        a
    } else {
        b
    }
}

/// The stream of a handle.
pub open spec fn stream_at<L3: StreamLayer>(a: Sfs<L3>, num: u64) -> StreamState {
    a.world().streams[a.open_views()[num].stream]
}

/// The bytes by which the capacity of the stream of a handle grows.
pub open spec fn step_at<L3: StreamLayer>(a: Sfs<L3>, num: u64) -> nat {
    step_of(a.world(), a.open_views()[num].stream)
}

/// Only the head of handle `num` has moved, to `position`.
pub open spec fn head_moved<L3: StreamLayer>(
    a: Sfs<L3>,
    b: Sfs<L3>,
    num: u64,
    position: int,
) -> bool {
    &&& b.open_views().dom() == a.open_views().dom()
    &&& forall|k: u64| #[trigger]
        a.open_views().contains_key(k) && k != num ==> b.open_views()[k] == a.open_views()[k]
    &&& b.open_views()[num].stream == a.open_views()[num].stream
    &&& b.open_views()[num].mode == a.open_views()[num].mode
    &&& b.open_views()[num].position == position
}

/// Of all streams only that of handle `num` has changed, to these bytes, and nothing
/// else but the head of that handle.
pub open spec fn bytes_changed<L3: StreamLayer>(
    a: Sfs<L3>,
    b: Sfs<L3>,
    num: u64,
    data: Seq<u8>,
) -> bool {
    let id = a.open_views()[num].stream;
    &&& b.world().streams.dom() == a.world().streams.dom()
    &&& forall|i: u64| #[trigger]
        a.world().streams.contains_key(i) && i != id ==> b.world().streams[i]
            == a.world().streams[i]
    &&& b.world().streams[id].data == data
    &&& b.world().streams[id].compressed == a.world().streams[id].compressed
    &&& b.world().handles == a.world().handles
    &&& b.world().root == a.world().root
    &&& b.world().mode == a.world().mode
    &&& b.world().width == a.world().width
    &&& b.world().plain_unit == a.world().plain_unit
    &&& b.world().packed_unit == a.world().packed_unit
    &&& b.world().compression == a.world().compression
}

/// Reading gives the bytes from the head on, as many as there are and the buffer can
/// take, leaves the rest of the buffer as it was, moves the head behind what was read,
/// and changes nothing else. It fails where the handle is not open.
pub proof fn law_call_read<L3: StreamLayer>(
    sfs: &mut Sfs<L3>,
    handle: &StreamHandle,
    buf: &mut [u8],
    r: Result<usize, SfsError>,
)
    requires
        old(sfs).wf(),
        call_ensures(Sfs::<L3>::read, (sfs, handle, buf), r),
        final(sfs).faults() == old(sfs).faults(),
    ensures
        ({
            let a = *old(sfs);
            let b = *final(sfs);
            let k = handle.num();
            let data = stream_at(a, k).data;
            let pos = a.open_views()[k].position as int;
            &&& b.wf()
            &&& b.world() == a.world()
            &&& final(buf)@.len() == old(buf)@.len()
            &&& r is Ok <==> a.open_views().contains_key(k)
            &&& r is Err ==> refused(a, b, r, ErrorKind::NotFound) && final(buf)@ == old(buf)@
            &&& r matches Ok(n) ==> {
                &&& n == smaller(data.len() - pos, old(buf)@.len() as int)
                &&& forall|i: int| 0 <= i < n ==> #[trigger] final(buf)@[i] == data[pos + i]
                &&& forall|i: int|
                    n <= i < old(buf)@.len() ==> #[trigger] final(buf)@[i] == old(buf)@[i]
                &&& head_moved(a, b, k, pos + n)
            }
        }),
{
    old(sfs).lemma_world();
    let a = *old(sfs);
    let b = *final(sfs);
    if r is Ok {
        assert(b.open_views().dom() =~= a.open_views().dom());
    }
}

/// Writing puts the bytes in from the head on, over what stands there and beyond the
/// end, moves the head behind them, and changes nothing else. It fails where the handle
/// is not open, where it is not for writing, and where there can be no room.
pub proof fn law_call_write<L3: StreamLayer>(
    sfs: &mut Sfs<L3>,
    handle: &StreamHandle,
    buf: &[u8],
    r: Result<usize, SfsError>,
)
    requires
        old(sfs).wf(),
        old(sfs).open_views().contains_key(handle.num()) ==> old(
            sfs,
        ).open_views()[handle.num()].position + buf@.len() <= u64::MAX,
        call_ensures(Sfs::<L3>::write, (sfs, handle, buf), r),
        final(sfs).faults() == old(sfs).faults(),
    ensures
        ({
            let a = *old(sfs);
            let b = *final(sfs);
            let k = handle.num();
            let s = stream_at(a, k);
            let pos = a.open_views()[k].position as int;
            let end = pos + buf@.len();
            &&& b.wf()
            &&& !a.open_views().contains_key(k) ==> refused(a, b, r, ErrorKind::NotFound)
            &&& a.open_views().contains_key(k) && a.open_views()[k].mode is Read ==> refused(
                a,
                b,
                r,
                ErrorKind::LockConflict,
            )
            &&& a.open_views().contains_key(k) && a.open_views()[k].mode is Write ==> {
                &&& r is Ok <==> buf@.len() == 0 || room(s.reserved, end as nat, step_at(a, k))
                &&& r is Err ==> refused(a, b, r, ErrorKind::IoError)
                &&& r matches Ok(n) ==> {
                    let t = stream_at(b, k);
                    &&& n == buf@.len()
                    &&& head_moved(a, b, k, end)
                    &&& bytes_changed(a, b, k, t.data)
                    &&& t.data.len() == if end > s.data.len() {
                        end
                    } else {
                        s.data.len() as int
                    }
                    &&& forall|i: int| pos <= i < end ==> #[trigger] t.data[i] == buf@[i - pos]
                    &&& forall|i: int|
                        0 <= i < s.data.len() && !(pos <= i < end) ==> #[trigger] t.data[i]
                            == s.data[i]
                    &&& buf@.len() > 0 ==> capacity(
                        s.reserved,
                        end as nat,
                        step_at(a, k),
                        t.reserved,
                    )
                    &&& buf@.len() == 0 ==> t.reserved == s.reserved
                }
            }
        }),
{
    old(sfs).lemma_world();
    let a = *old(sfs);
    let b = *final(sfs);
    let k = handle.num();
    if a.open_views().contains_key(k) {
        let s = stream_at(a, k);
        let pos = a.open_views()[k].position as int;
        let end = (pos + buf@.len()) as nat;
        let unit = step_at(a, k);
        lemma_room_left(s.reserved, end, unit);
        law_grown_capacity(s.reserved, end, unit);
        assert(capacity(
            s.reserved,
            end,
            unit,
            crate::stream_layer::grown_capacity(s.reserved, end, unit),
        ));
        crate::sfs_model::law_written_read(s.data, pos, buf@);
        let after = crate::sfs_model::spliced(s.data, pos, buf@);
        assert forall|i: int| pos <= i < end implies #[trigger] after[i] == buf@[i - pos] by {
            assert(after.subrange(pos, end as int)[i - pos] == after[i]);
        }
        if r is Ok {
            assert(b.open_views().dom() =~= a.open_views().dom());
            assert(b.world().streams.dom() =~= a.world().streams.dom());
        }
    }
}

pub proof fn lemma_room_left(reserved: nat, n: nat, unit: nat)
    requires
        unit >= 1,
        n <= u64::MAX,
    ensures
        room(reserved, n, unit) <==> !crate::plain::too_large(reserved, n, unit),
{
    law_grown_capacity(reserved, n, unit);
    let g = crate::stream_layer::grown_capacity(reserved, n, unit);
    assert(capacity(reserved, n, unit, g));
}

/// Truncating leaves the first bytes, as many as are asked for, or all where there are
/// no more; the capacity is what these need, and the head stands no further than what
/// was asked for. Nothing else changes. It fails where the handle is not open and where
/// it is not for writing.
pub proof fn law_call_truncate<L3: StreamLayer>(
    sfs: &mut Sfs<L3>,
    handle: &StreamHandle,
    new_len: u64,
    r: Result<(), SfsError>,
)
    requires
        old(sfs).wf(),
        call_ensures(Sfs::<L3>::truncate, (sfs, handle, new_len), r),
        final(sfs).faults() == old(sfs).faults(),
    ensures
        ({
            let a = *old(sfs);
            let b = *final(sfs);
            let k = handle.num();
            let s = stream_at(a, k);
            let len = smaller(s.data.len() as int, new_len as int);
            &&& b.wf()
            &&& !a.open_views().contains_key(k) ==> refused(a, b, r, ErrorKind::NotFound)
            &&& a.open_views().contains_key(k) && a.open_views()[k].mode is Read ==> refused(
                a,
                b,
                r,
                ErrorKind::LockConflict,
            )
            &&& a.open_views().contains_key(k) && a.open_views()[k].mode is Write ==> {
                &&& r is Ok
                &&& bytes_changed(a, b, k, s.data.take(len))
                &&& stream_at(b, k).data.len() == len
                &&& capacity(0, len as nat, step_at(a, k), stream_at(b, k).reserved)
                &&& head_moved(
                    a,
                    b,
                    k,
                    smaller(a.open_views()[k].position as int, new_len as int),
                )
            }
        }),
{
    old(sfs).lemma_world();
    let a = *old(sfs);
    let b = *final(sfs);
    let k = handle.num();
    if a.open_views().contains_key(k) && a.open_views()[k].mode is Write {
        law_cut(stream_at(a, k), new_len as nat, step_at(a, k));
        assert(b.open_views().dom() =~= a.open_views().dom());
        assert(b.world().streams.dom() =~= a.world().streams.dom());
    }
}

/// A stream that was cut has the first of its bytes, as many as are asked for, or all
/// of them where there are no more, in the least capacity that is enough.
pub proof fn law_cut(s: StreamState, n: nat, unit: nat)
    requires
        unit >= 1,
    ensures
        ({
            let t = crate::stream_layer::cut(s, n, unit);
            let len = smaller(s.data.len() as int, n as int);
            &&& t.data.len() == len
            &&& t.data == s.data.take(len)
            &&& t.compressed == s.compressed
            &&& capacity(0, len as nat, unit, t.reserved)
        }),
{
    let len = smaller(s.data.len() as int, n as int) as nat;
    law_grown_capacity(0, len, unit);
    assert(capacity(0, len, unit, crate::stream_layer::grown_capacity(0, len, unit)));
    assert(0 * unit == 0) by (nonlinear_arith);
}

/// Reserving gives a stream the least capacity that is enough, keeps its bytes, and
/// changes nothing else. It fails where the handle is not open or not for writing,
/// where the stream is longer already, and where there can be no room.
pub proof fn law_call_reserve<L3: StreamLayer>(
    sfs: &mut Sfs<L3>,
    handle: &StreamHandle,
    n_bytes: u64,
    r: Result<(), SfsError>,
)
    requires
        old(sfs).wf(),
        call_ensures(Sfs::<L3>::reserve, (sfs, handle, n_bytes), r),
        final(sfs).faults() == old(sfs).faults(),
    ensures
        ({
            let a = *old(sfs);
            let b = *final(sfs);
            let k = handle.num();
            let s = stream_at(a, k);
            &&& b.wf()
            &&& b.open_views() == a.open_views()
            &&& !a.open_views().contains_key(k) ==> refused(a, b, r, ErrorKind::NotFound)
            &&& a.open_views().contains_key(k) && a.open_views()[k].mode is Read ==> refused(
                a,
                b,
                r,
                ErrorKind::LockConflict,
            )
            &&& a.open_views().contains_key(k) && a.open_views()[k].mode is Write ==> {
                &&& r is Ok <==> s.data.len() <= n_bytes && room(
                    s.reserved,
                    n_bytes as nat,
                    step_at(a, k),
                )
                &&& r is Err ==> refused(a, b, r, ErrorKind::IoError)
                &&& r is Ok ==> bytes_changed(a, b, k, s.data) && capacity(
                    s.reserved,
                    n_bytes as nat,
                    step_at(a, k),
                    stream_at(b, k).reserved,
                )
            }
        }),
{
    old(sfs).lemma_world();
    let a = *old(sfs);
    let b = *final(sfs);
    let k = handle.num();
    if a.open_views().contains_key(k) {
        let s = stream_at(a, k);
        let unit = step_at(a, k);
        lemma_room_left(s.reserved, n_bytes as nat, unit);
        law_grown_capacity(s.reserved, n_bytes as nat, unit);
        assert(capacity(
            s.reserved,
            n_bytes as nat,
            unit,
            crate::stream_layer::grown_capacity(s.reserved, n_bytes as nat, unit),
        ));
        if r is Ok {
            assert(b.world().streams.dom() =~= a.world().streams.dom());
        }
    }
}

/// Seeking moves the head to a place that does not lie behind the end of the stream,
/// and changes nothing else.
pub proof fn law_call_seek<L3: StreamLayer>(
    sfs: &mut Sfs<L3>,
    handle: &StreamHandle,
    pos: u64,
    r: Result<(), SfsError>,
)
    requires
        old(sfs).wf(),
        call_ensures(Sfs::<L3>::seek, (sfs, handle, pos), r),
    ensures
        ({
            let a = *old(sfs);
            let b = *final(sfs);
            let k = handle.num();
            &&& b.wf()
            &&& b.world() == a.world()
            &&& b.faults() == a.faults()
            &&& !a.open_views().contains_key(k) ==> refused(a, b, r, ErrorKind::NotFound)
            &&& a.open_views().contains_key(k) && pos > stream_at(a, k).data.len() ==> refused(
                a,
                b,
                r,
                ErrorKind::SeekOutOfBounds,
            )
            &&& a.open_views().contains_key(k) && pos <= stream_at(a, k).data.len() ==> r is Ok
                && head_moved(a, b, k, pos as int)
        }),
{
    let a = *old(sfs);
    let b = *final(sfs);
    if r is Ok {
        assert(b.open_views().dom() =~= a.open_views().dom());
    }
}

/// What is asked of an open handle is answered by the place of its head, the number of
/// the bytes, the capacity and the kind of its stream; of any other handle by nothing.
pub proof fn law_call_asked<L3: StreamLayer>(
    sfs: &Sfs<L3>,
    handle: &StreamHandle,
    n: Result<u64, SfsError>,
    c: Result<bool, SfsError>,
)
    requires
        sfs.wf(),
    ensures
        ({
            let k = handle.num();
            let view = sfs.open_views()[k];
            let s = sfs.world().streams[view.stream];
            let open = sfs.open_views().contains_key(k);
            &&& call_ensures(Sfs::<L3>::tell, (sfs, handle), n) ==> if open {
                n matches Ok(pos) && pos == view.position
            } else {
                n matches Err(e) && e is NotFound
            }
            &&& call_ensures(Sfs::<L3>::stream_length, (sfs, handle), n) ==> if open {
                n matches Ok(len) && len == s.data.len()
            } else {
                n matches Err(e) && e is NotFound
            }
            &&& call_ensures(Sfs::<L3>::stream_reserved, (sfs, handle), n) ==> if open {
                n matches Ok(size) && size == s.reserved
            } else {
                n matches Err(e) && e is NotFound
            }
            &&& call_ensures(Sfs::<L3>::is_stream_compressed, (sfs, handle), c) ==> if open {
                c matches Ok(packed) && packed == s.compressed
            } else {
                c matches Err(e) && e is NotFound
            }
        }),
{
}

// ---------------------------------------------------------------------------
// What an error says
// ---------------------------------------------------------------------------

/// An error of a call on `path` says the path where the name is taken, where a
/// directory is not empty and where there is no such name, and that the parent does not
/// exist where a name on the way is missing. `name` is what the last part of the path
/// is listed as.
pub open spec fn says_which<H, R>(
    wd: World<H>,
    path: Seq<char>,
    names: Seq<Seq<u8>>,
    name: Seq<u8>,
    mode: OpenMode,
    r: Result<R, SfsError>,
    d: u64,
    es: Seq<Entry>,
) -> bool {
    let dirs = names.drop_last();
    &&& holds(wd, dirs, mode, d, es) ==> {
        &&& r matches Err(SfsError::AlreadyExists(said)) ==> said@ == path
        &&& r matches Err(SfsError::NotEmpty(said)) ==> said@ == path
        &&& unnamed(es, name) ==> (r matches Err(SfsError::NotFound(said)) ==> said@ == path)
    }
    &&& misses(wd, wd.root, dirs) ==> (r matches Err(SfsError::NotFound(said)) ==> said@
        == "parent directory does not exist"@)
}

proof fn lemma_says_which<H, R>(
    wd: World<H>,
    path: Seq<char>,
    names: Seq<Seq<u8>>,
    name: Seq<u8>,
    mode: OpenMode,
    r: Result<R, SfsError>,
    d: u64,
    es: Seq<Entry>,
)
    requires
        wd.width <= 8,
        says(encode_utf8(path), names),
        crate::sfs_model::tells_path(wd, mode, name, path, r),
    ensures
        says_which(wd, path, names, name, mode, r, d, es),
{
    let dirs = names.drop_last();
    crate::terms::law_valid_path(encode_utf8(path));
    crate::terms::law_dir_at(wd, dirs, mode);
    crate::terms::law_strays(wd, wd.root, dirs);
    crate::terms::law_find(es, name);
    if misses(wd, wd.root, dirs) {
        lemma_missed(wd, wd.root, dirs);
    }
}

/// A way that misses a name leads nowhere.
proof fn lemma_missed<H>(wd: World<H>, cur: u64, names: Seq<Seq<u8>>)
    requires
        wd.width <= 8,
        misses(wd, cur, names),
    ensures
        !(crate::sfs_model::walk(wd, cur, names) is Done),
    decreases names.len(),
{
    crate::terms::law_strays(wd, cur, names);
    match crate::sfs_model::read_dir(wd, cur, OpenMode::Read) {
        crate::sfs_model::DirState::Entries(es) => {
            let name = crate::names::dir_name(names[0]);
            match crate::dir_entries::find(es, name) {
                Some(next) => {
                    crate::terms::law_strays(wd, next, names.skip(1));
                    lemma_missed(wd, next, names.skip(1));
                },
                None => {},
            }
        },
        _ => {},
    }
}

/// What the errors of the calls on one path say.
pub proof fn law_call_errors<L3: StreamLayer>(
    sfs: &mut Sfs<L3>,
    path: &str,
    mode: OpenMode,
    compressed: bool,
    done: Result<(), SfsError>,
    handle: Result<StreamHandle, SfsError>,
    names: Seq<Seq<u8>>,
    d: u64,
    es: Seq<Entry>,
)
    requires
        old(sfs).wf(),
        final(sfs).faults() == old(sfs).faults(),
        says(encode_utf8(path@), names),
    ensures
        ({
            let wd = old(sfs).world();
            let leaf = names.last();
            let dir = leaf.push(47u8);
            let w = OpenMode::Write;
            &&& call_ensures(Sfs::<L3>::mkdir, (sfs, path), done) ==> says_which(
                wd,
                path@,
                names,
                leaf,
                w,
                done,
                d,
                es,
            )
            &&& call_ensures(Sfs::<L3>::rmdir, (sfs, path), done) ==> says_which(
                wd,
                path@,
                names,
                dir,
                w,
                done,
                d,
                es,
            )
            &&& call_ensures(Sfs::<L3>::delete_stream, (sfs, path), done) ==> says_which(
                wd,
                path@,
                names,
                leaf,
                w,
                done,
                d,
                es,
            )
            &&& call_ensures(Sfs::<L3>::create_stream, (sfs, path), handle) ==> says_which(
                wd,
                path@,
                names,
                leaf,
                w,
                handle,
                d,
                es,
            )
            &&& call_ensures(Sfs::<L3>::create_stream_as, (sfs, path, compressed), handle)
                ==> says_which(wd, path@, names, leaf, w, handle, d, es)
            &&& call_ensures(Sfs::<L3>::open_stream, (sfs, path, mode), handle) ==> says_which(
                wd,
                path@,
                names,
                leaf,
                OpenMode::Read,
                handle,
                d,
                es,
            )
        }),
{
    old(sfs).lemma_world();
    let wd = old(sfs).world();
    let leaf = names.last();
    let dir = leaf.push(47u8);
    let w = OpenMode::Write;
    crate::terms::law_valid_path(encode_utf8(path@));
    if call_ensures(Sfs::<L3>::mkdir, (sfs, path), done) || call_ensures(
        Sfs::<L3>::delete_stream,
        (sfs, path),
        done,
    ) {
        lemma_says_which(wd, path@, names, leaf, w, done, d, es);
    }
    if call_ensures(Sfs::<L3>::rmdir, (sfs, path), done) {
        lemma_says_which(wd, path@, names, dir, w, done, d, es);
    }
    if call_ensures(Sfs::<L3>::create_stream, (sfs, path), handle) || call_ensures(
        Sfs::<L3>::create_stream_as,
        (sfs, path, compressed),
        handle,
    ) {
        lemma_says_which(wd, path@, names, leaf, w, handle, d, es);
    }
    if call_ensures(Sfs::<L3>::open_stream, (sfs, path, mode), handle) {
        lemma_says_which(wd, path@, names, leaf, OpenMode::Read, handle, d, es);
    }
}

/// What the errors of renaming say: the new path where that is taken, the old one where
/// there is no such name.
pub proof fn law_call_rename_errors<L3: StreamLayer>(
    sfs: &mut Sfs<L3>,
    old_path: &str,
    new_path: &str,
    dir: bool,
    r: Result<(), SfsError>,
    old_names: Seq<Seq<u8>>,
    new_names: Seq<Seq<u8>>,
    from: u64,
    es: Seq<Entry>,
    to: u64,
)
    requires
        old(sfs).wf(),
        final(sfs).faults() == old(sfs).faults(),
        says(encode_utf8(old_path@), old_names),
        says(encode_utf8(new_path@), new_names),
        if dir {
            call_ensures(Sfs::<L3>::rename_dir, (sfs, old_path, new_path), r)
        } else {
            call_ensures(Sfs::<L3>::rename_stream, (sfs, old_path, new_path), r)
        },
    ensures
        ({
            let wd = old(sfs).world();
            let name = told_name(old_names.last(), dir);
            &&& holds(wd, old_names.drop_last(), OpenMode::Write, from, es) && leads(
                wd,
                wd.root,
                new_names.drop_last(),
                to,
            ) ==> {
                &&& r matches Err(SfsError::AlreadyExists(said)) ==> said@ == new_path@
                &&& unnamed(es, name) ==> (r matches Err(SfsError::NotFound(said)) ==> said@
                    == old_path@)
            }
            &&& misses(wd, wd.root, old_names.drop_last()) || (leads(
                wd,
                wd.root,
                old_names.drop_last(),
                from,
            ) && misses(wd, wd.root, new_names.drop_last())) ==> (
            r matches Err(SfsError::NotFound(said)) ==> said@
                == "parent directory does not exist"@)
        }),
{
    old(sfs).lemma_world();
    let wd = old(sfs).world();
    let a = old_names.drop_last();
    let b = new_names.drop_last();
    let name = told_name(old_names.last(), dir);
    crate::terms::law_valid_path(encode_utf8(old_path@));
    crate::terms::law_valid_path(encode_utf8(new_path@));
    crate::terms::law_dir_at(wd, a, OpenMode::Write);
    crate::terms::law_walk(wd, wd.root, a);
    crate::terms::law_walk(wd, wd.root, b);
    crate::terms::law_strays(wd, wd.root, a);
    crate::terms::law_strays(wd, wd.root, b);
    crate::terms::law_find(es, name);
    if misses(wd, wd.root, a) {
        lemma_missed(wd, wd.root, a);
    }
    if misses(wd, wd.root, b) {
        lemma_missed(wd, wd.root, b);
    }
}

} // verus!
