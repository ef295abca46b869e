//! What the calls on paths do, told by the entries of the directories and by the
//! bytes of the streams: what is found, what is listed, what is made, removed or
//! renamed, and when a call is refused and why.

use crate::dir_entries::{find, Entry};
use crate::names::dir_name;
use crate::pyramid::ceil_div;
use crate::sfs_model::{
    deleted, dir_listed, dir_removed, entries_set, entry_added, entry_name, first_free, has_room,
    lemma_some_unused, made, read_dir, renamed, stream_found, stream_removed, unlinked, walk,
    with_streams, DirState, ErrorKind, Outcome, World,
};
use crate::block_layer::sentinel;
use crate::stream_layer::{all_used, first_unused, grown_capacity, is_open, StreamState};
use crate::stream_tree::lemma_ceil_covers;
use crate::terms::{
    barred, capacity, first_named, holds, law_dir_at, law_entries_spelt, law_entry_spelt, law_find,
    law_open_refused, law_path_refused, law_pow256, law_read_dir, law_valid_path, law_walk,
    law_without, leads, may_open, name_free, opens, reads, says, shut, spelt, spelt_one, stuck,
    unnamed, unreadable,
};
use crate::types::OpenMode;
use vstd::arithmetic::power::pow;
use vstd::prelude::*;

verus! {

// ---------------------------------------------------------------------------
// Terms for changes
// ---------------------------------------------------------------------------

/// Some handle is open on stream `id`.
pub open spec fn in_use<H>(wd: World<H>, id: u64) -> bool {
    exists|h: H| #[trigger] wd.handles.contains_key(h) && wd.handles[h].stream == id
}

/// The number of bytes by which the capacity of stream `d` grows.
pub open spec fn step_of<H>(wd: World<H>, d: u64) -> nat {
    if wd.streams[d].compressed {
        wd.packed_unit
    } else {
        wd.plain_unit
    }
}

/// A stream of capacity `before` can be given room for `n` bytes.
pub open spec fn room(before: nat, n: nat, unit: nat) -> bool {
    n <= u64::MAX && (n <= before || exists|c: nat| #[trigger]
        capacity(before, n, unit, c) && c <= u64::MAX)
}

/// From `wd` to `streams` nothing but stream `d` has changed, which now holds `bytes`
/// in a capacity that has grown from `before`.
pub open spec fn only_holds<H>(
    wd: World<H>,
    streams: Map<u64, StreamState>,
    d: u64,
    bytes: Seq<u8>,
    before: nat,
) -> bool {
    &&& streams.dom() == wd.streams.dom()
    &&& forall|i: u64| #[trigger]
        wd.streams.contains_key(i) && i != d ==> streams[i] == wd.streams[i]
    &&& streams[d].data == bytes
    &&& streams[d].compressed == wd.streams[d].compressed
    &&& capacity(before, bytes.len(), step_of(wd, d), streams[d].reserved)
}

/// `id` is the smallest number that no stream has.
pub open spec fn least_unused(streams: Map<u64, StreamState>, id: u64) -> bool {
    &&& !streams.contains_key(id)
    &&& forall|j: u64| j < id ==> #[trigger] streams.contains_key(j)
}

/// The bytes of the entries but for those of a name.
pub open spec fn spelt_without(es: Seq<Entry>, name: Seq<u8>, w: nat) -> Seq<u8> {
    spelt(es.filter(|e: Entry| e.name != name), w)
}

/// The name of an entry: that of a directory ends in a slash.
pub open spec fn told_name(leaf: Seq<u8>, dir: bool) -> Seq<u8> {
    if dir {
        leaf.push(47u8)
    } else {
        leaf
    }
}

/// What is known of the sizes in every file system.
pub open spec fn sized<H>(wd: World<H>) -> bool {
    1 <= wd.width <= 8 && wd.plain_unit >= 1 && wd.packed_unit >= 1
}

// ---------------------------------------------------------------------------
// Capacity
// ---------------------------------------------------------------------------

/// A capacity grows to the least number of whole units that is enough, and only where
/// it must.
pub proof fn law_grown_capacity(before: nat, n: nat, unit: nat)
    requires
        unit >= 1,
    ensures
        forall|c: nat|
            grown_capacity(before, n, unit) == c <==> #[trigger] capacity(before, n, unit, c),
{
    lemma_ceil_covers(n, unit);
    let k = ceil_div(n, unit);
    let g = grown_capacity(before, n, unit);
    vstd::arithmetic::div_mod::lemma_mod_multiples_basic(k as int, unit as int);
    assert(capacity(before, n, unit, g));
    assert forall|c: nat| #[trigger] capacity(before, n, unit, c) implies c == g by {
        if n > before {
            let q = c / unit;
            vstd::arithmetic::div_mod::lemma_fundamental_div_mod(c as int, unit as int);
            assert(q == k) by (nonlinear_arith)
                requires
                    c == unit * q,
                    n <= c < n + unit,
                    n <= k * unit < n + unit,
                    unit >= 1,
            ;
            assert(c == k * unit) by (nonlinear_arith)
                requires
                    c == unit * q,
                    q == k,
            ;
        }
    }
}

proof fn lemma_room(before: nat, n: nat, unit: nat)
    requires
        unit >= 1,
    ensures
        has_room(before, n, unit) <==> room(before, n, unit),
{
    law_grown_capacity(before, n, unit);
    let g = grown_capacity(before, n, unit);
    assert(capacity(before, n, unit, g));
}

proof fn lemma_entries_set<H>(wd: World<H>, d: u64, es: Seq<Entry>)
    requires
        sized(wd),
        wd.streams.contains_key(d),
    ensures
        room(0, spelt(es, wd.width).len(), step_of(wd, d)) <==> entries_set(wd, d, es) is Done,
        !(entries_set(wd, d, es) is Done) ==> entries_set(wd, d, es) is TooLarge,
        entries_set(wd, d, es) matches Outcome::Done(streams) ==> only_holds(
            wd,
            streams,
            d,
            spelt(es, wd.width),
            0,
        ),
{
    law_entries_spelt(es, wd.width);
    lemma_room(0, spelt(es, wd.width).len(), step_of(wd, d));
    law_grown_capacity(0, spelt(es, wd.width).len(), step_of(wd, d));
    match entries_set(wd, d, es) {
        Outcome::Done(streams) => {
            assert(streams.dom() =~= wd.streams.dom());
            assert(capacity(
                0,
                spelt(es, wd.width).len(),
                step_of(wd, d),
                grown_capacity(0, spelt(es, wd.width).len(), step_of(wd, d)),
            ));
        },
        _ => {},
    }
}

proof fn lemma_entry_added<H>(wd: World<H>, d: u64, e: Entry)
    requires
        sized(wd),
        wd.streams.contains_key(d),
    ensures
        ({
            let s = wd.streams[d];
            let bytes = s.data + spelt_one(e, wd.width);
            &&& room(s.reserved, bytes.len(), step_of(wd, d)) <==> entry_added(wd, d, e) is Done
            &&& !(entry_added(wd, d, e) is Done) ==> entry_added(wd, d, e) is TooLarge
            &&& entry_added(wd, d, e) matches Outcome::Done(streams) ==> only_holds(
                wd,
                streams,
                d,
                bytes,
                s.reserved,
            )
        }),
{
    let s = wd.streams[d];
    let bytes = s.data + spelt_one(e, wd.width);
    law_entry_spelt(e, wd.width);
    lemma_room(s.reserved, bytes.len(), step_of(wd, d));
    law_grown_capacity(s.reserved, bytes.len(), step_of(wd, d));
    match entry_added(wd, d, e) {
        Outcome::Done(streams) => {
            assert(streams.dom() =~= wd.streams.dom());
            assert(capacity(
                s.reserved,
                bytes.len(),
                step_of(wd, d),
                grown_capacity(s.reserved, bytes.len(), step_of(wd, d)),
            ));
        },
        _ => {},
    }
}

proof fn lemma_name_free(es: Seq<Entry>, leaf: Seq<u8>)
    ensures
        name_free(es, leaf) <==> find(es, leaf) is None && find(es, dir_name(leaf)) is None,
        name_free(es, leaf) <==> forall|i: int|
            0 <= i < es.len() ==> (#[trigger] es[i]).name != leaf && es[i].name != leaf.push(47u8),
{
    law_find(es, leaf);
    law_find(es, dir_name(leaf));
    if find(es, leaf) is None && find(es, dir_name(leaf)) is None {
        assert forall|i: int| 0 <= i < es.len() implies (#[trigger] es[i]).name != leaf
            && es[i].name != leaf.push(47u8) by {}
    }
    if name_free(es, leaf) {
        assert(unnamed(es, leaf));
        assert(unnamed(es, dir_name(leaf)));
    }
}

// ---------------------------------------------------------------------------
// Ways
// ---------------------------------------------------------------------------

/// Every way leads to one directory with its entries, or is shut for one reason.
pub proof fn law_ways<H>(wd: World<H>, dirs: Seq<Seq<u8>>, mode: OpenMode)
    requires
        wd.width <= 8,
    ensures
        (exists|d: u64, es: Seq<Entry>| #[trigger] holds(wd, dirs, mode, d, es)) <==> !(exists|
            kind: ErrorKind,
        | #[trigger] shut(wd, dirs, mode, kind)),
        forall|d: u64, es: Seq<Entry>, d2: u64, e2: Seq<Entry>| #[trigger]
            holds(wd, dirs, mode, d, es) && #[trigger] holds(wd, dirs, mode, d2, e2) ==> d == d2
                && es == e2,
        forall|k: ErrorKind, j: ErrorKind| #[trigger]
            shut(wd, dirs, mode, k) && #[trigger] shut(wd, dirs, mode, j) ==> k == j,
{
    law_dir_at(wd, dirs, mode);
    match walk(wd, wd.root, dirs) {
        Outcome::Done(d) => match read_dir(wd, d, mode) {
            DirState::Entries(es) => {
                assert(holds(wd, dirs, mode, d, es));
            },
            DirState::Refused(kind) => {
                assert(shut(wd, dirs, mode, kind));
            },
        },
        Outcome::Refused(kind) => {
            assert(shut(wd, dirs, mode, kind));
        },
        _ => {},
    }
}

/// Where a path cannot be used, every call on it is refused, and a call that writes is
/// refused where the file was opened for reading.
pub proof fn law_unusable_path<H>(
    wd: World<H>,
    open: Set<u64>,
    path: Seq<u8>,
    other: Seq<u8>,
    dir: bool,
    packed: bool,
    mode: OpenMode,
)
    requires
        forall|names: Seq<Seq<u8>>| !#[trigger] says(path, names),
    ensures
        ({
            let kind = if wd.mode is Read {
                ErrorKind::ReadOnly
            } else {
                ErrorKind::InvalidPath
            };
            &&& made(wd, path, dir, packed) == Outcome::<(u64, Map<u64, StreamState>)>::Refused(
                kind,
            )
            &&& dir_removed(wd, path) == Outcome::<Map<u64, StreamState>>::Refused(kind)
            &&& stream_removed(wd, open, path) == Outcome::<Map<u64, StreamState>>::Refused(kind)
            &&& renamed(wd, open, path, other, dir) == Outcome::<Map<u64, StreamState>>::Refused(
                kind,
            )
            &&& renamed(wd, open, other, path, dir) == Outcome::<Map<u64, StreamState>>::Refused(
                kind,
            )
            &&& stream_found(wd, path, mode) == Outcome::<u64>::Refused(
                if mode is Write {
                    kind
                } else {
                    ErrorKind::InvalidPath
                },
            )
            &&& path.len() > 0 ==> dir_listed(wd, path) == Outcome::<Seq<Entry>>::Refused(
                ErrorKind::InvalidPath,
            )
        }),
{
    law_path_refused(wd, path, true);
    law_path_refused(wd, path, false);
    law_path_refused(wd, other, true);
    law_valid_path(path);
}

// ---------------------------------------------------------------------------
// Finding and listing
// ---------------------------------------------------------------------------

/// In the directory that the other names lead to, the last of `names` stands for stream
/// `id`, and it can be opened in `mode`.
pub open spec fn stands_for<H>(wd: World<H>, names: Seq<Seq<u8>>, mode: OpenMode, id: u64) -> bool {
    &&& opens(wd, id, mode)
    &&& exists|d: u64, es: Seq<Entry>| #[trigger]
        holds(wd, names.drop_last(), OpenMode::Read, d, es) && first_named(es, names.last(), id)
}

/// Opening a stream finds the one that the last name of the path stands for in the
/// directory that the other names lead to, whether it is opened for reading or for
/// writing, and nothing else; it is refused where there is no such directory, no such
/// name, or where what is open stands in the way.
pub proof fn law_stream_opened<H>(
    wd: World<H>,
    path: Seq<u8>,
    names: Seq<Seq<u8>>,
    mode: OpenMode,
)
    requires
        wd.width <= 8,
        says(path, names),
    ensures
        ({
            let out = stream_found(wd, path, mode);
            let dirs = names.drop_last();
            &&& mode is Write && wd.mode is Read ==> out == Outcome::<u64>::Refused(
                ErrorKind::ReadOnly,
            )
            &&& forall|id: u64|
                (out == Outcome::Done(id)) <==> !(mode is Write && wd.mode is Read)
                    && #[trigger] stands_for(wd, names, mode, id)
            &&& !(mode is Write && wd.mode is Read) ==> {
                &&& forall|kind: ErrorKind| #[trigger]
                    shut(wd, dirs, OpenMode::Read, kind) ==> out == Outcome::<u64>::Refused(kind)
                &&& forall|d: u64, es: Seq<Entry>| #[trigger]
                    holds(wd, dirs, OpenMode::Read, d, es) && unnamed(es, names.last()) ==> out
                        == Outcome::<u64>::Refused(ErrorKind::NotFound)
                &&& forall|d: u64, es: Seq<Entry>, id: u64, kind: ErrorKind| #[trigger]
                    holds(wd, dirs, OpenMode::Read, d, es) && first_named(es, names.last(), id)
                        && !opens(wd, id, mode) && #[trigger] barred(wd, id, mode, kind) ==> out
                        == Outcome::<u64>::Refused(kind)
            }
        }),
{
    law_path_refused(wd, path, mode is Write);
    law_valid_path(path);
    let dirs = names.drop_last();
    law_dir_at(wd, dirs, OpenMode::Read);
    let out = stream_found(wd, path, mode);
    assert forall|d: u64, es: Seq<Entry>, id: u64| #[trigger]
        holds(wd, dirs, OpenMode::Read, d, es) && #[trigger] first_named(
            es,
            names.last(),
            id,
        ) implies find(es, names.last()) == Some(id) by {
        law_find(es, names.last());
    }
    assert forall|id: u64|
        (out == Outcome::Done(id)) <==> !(mode is Write && wd.mode is Read)
            && #[trigger] stands_for(wd, names, mode, id) by {
        law_open_refused(wd, id, mode);
        if out == Outcome::Done(id) {
            let d = walk(wd, wd.root, dirs)->Done_0;
            let es = read_dir(wd, d, OpenMode::Read)->Entries_0;
            law_find(es, names.last());
            assert(holds(wd, dirs, OpenMode::Read, d, es));
            assert(first_named(es, names.last(), id));
        }
    }
    if !(mode is Write && wd.mode is Read) {
        assert forall|d: u64, es: Seq<Entry>, id: u64, kind: ErrorKind| #[trigger]
            holds(wd, dirs, OpenMode::Read, d, es) && first_named(es, names.last(), id) && !opens(
                wd,
                id,
                mode,
            ) && #[trigger] barred(wd, id, mode, kind) implies out == Outcome::<u64>::Refused(
            kind,
        ) by {
            law_find(es, names.last());
            law_open_refused(wd, id, mode);
        }
        assert forall|d: u64, es: Seq<Entry>| #[trigger]
            holds(wd, dirs, OpenMode::Read, d, es) && unnamed(es, names.last()) implies out
            == Outcome::<u64>::Refused(ErrorKind::NotFound) by {
            law_find(es, names.last());
        }
    }
}

/// What a path leads to for a writer it leads to for a reader: of one world, opening
/// for writing finds the stream that opening for reading finds.
pub proof fn law_one_stream<H>(wd: World<H>, path: Seq<u8>)
    ensures
        stream_found(wd, path, OpenMode::Write) is Done ==> stream_found(wd, path, OpenMode::Read)
            == stream_found(wd, path, OpenMode::Write),
{
    law_path_refused(wd, path, true);
    law_path_refused(wd, path, false);
    let w = stream_found(wd, path, OpenMode::Write);
    if w is Done {
        law_open_refused(wd, w->Done_0, OpenMode::Write);
        law_open_refused(wd, w->Done_0, OpenMode::Read);
        assert(may_open(wd, w->Done_0, OpenMode::Read)) by {
            assert forall|h: H| #[trigger]
                wd.handles.contains_key(h) && wd.handles[h].stream == w->Done_0 implies false by {}
        }
    }
}

/// A listing shows all entries that the bytes of the directory spell, in their number
/// and with their names, wherever the directory stands.
pub proof fn law_dir_listed<H>(
    wd: World<H>,
    path: Seq<u8>,
    names: Seq<Seq<u8>>,
    es: Seq<Entry>,
    kind: ErrorKind,
)
    requires
        wd.width <= 8,
        says(path, names) || (path.len() == 0 && names.len() == 0),
    ensures
        (dir_listed(wd, path) == Outcome::Done(es)) <==> exists|d: u64| #[trigger]
            holds(wd, names, OpenMode::Read, d, es),
        (dir_listed(wd, path) == Outcome::<Seq<Entry>>::Refused(kind)) <==> shut(
            wd,
            names,
            OpenMode::Read,
            kind,
        ),
{
    law_valid_path(path);
    law_dir_at(wd, names, OpenMode::Read);
    if path.len() == 0 {
        assert(names =~= Seq::<Seq<u8>>::empty());
    }
    if dir_listed(wd, path) == Outcome::Done(es) {
        assert(holds(wd, names, OpenMode::Read, walk(wd, wd.root, names)->Done_0, es));
    }
}

// ---------------------------------------------------------------------------
// Making
// ---------------------------------------------------------------------------

/// Making a stream or a directory gives it the smallest number that is free, leaves it
/// empty, and writes its entry behind those of the directory that it is made in; no
/// other stream changes. It is refused where the name is taken, by a stream or by a
/// directory, where no number is left, or where it should be compressed and cannot be.
pub proof fn law_made<H>(
    wd: World<H>,
    path: Seq<u8>,
    names: Seq<Seq<u8>>,
    dir: bool,
    packed: bool,
    d: u64,
    es: Seq<Entry>,
)
    requires
        sized(wd),
        says(path, names),
        wd.mode is Write,
        holds(wd, names.drop_last(), OpenMode::Write, d, es),
    ensures
        ({
            let out = made(wd, path, dir, packed);
            let leaf = names.last();
            let full = forall|j: u64| (j as int) < pow(256, wd.width) - 1
                ==> #[trigger] wd.streams.contains_key(j);
            &&& !name_free(es, leaf) ==> out == Outcome::<(u64, Map<u64, StreamState>)>::Refused(
                ErrorKind::AlreadyExists,
            )
            &&& name_free(es, leaf) && ((packed && !wd.compression) || full) ==> out == Outcome::<
                (u64, Map<u64, StreamState>),
            >::Refused(ErrorKind::IoError)
            &&& name_free(es, leaf) && !(packed && !wd.compression) && !full ==> {
                &&& out is Done || out is TooLarge
                &&& out is Done <==> room(
                    wd.streams[d].reserved,
                    wd.streams[d].data.len() + 2 + wd.width + told_name(leaf, dir).len(),
                    step_of(wd, d),
                )
                &&& out matches Outcome::Done((id, streams)) ==> {
                    &&& least_unused(wd.streams, id)
                    &&& streams.contains_key(id)
                    &&& streams[id] == (StreamState {
                        data: Seq::empty(),
                        reserved: 0,
                        compressed: packed,
                    })
                    &&& only_holds(
                        wd,
                        streams.remove(id),
                        d,
                        wd.streams[d].data + spelt_one(
                            Entry { id, name: told_name(leaf, dir) },
                            wd.width,
                        ),
                        wd.streams[d].reserved,
                    )
                }
            }
        }),
{
    law_path_refused(wd, path, true);
    law_valid_path(path);
    law_dir_at(wd, names.drop_last(), OpenMode::Write);
    law_pow256(wd.width);
    let leaf = names.last();
    lemma_name_free(es, leaf);
    assert(walk(wd, wd.root, names.drop_last()) == Outcome::Done(d));
    assert(read_dir(wd, d, OpenMode::Write) == DirState::Entries(es));
    let limit = sentinel(wd.width);
    let full = forall|j: u64| (j as int) < pow(256, wd.width) - 1
        ==> #[trigger] wd.streams.contains_key(j);
    assert(all_used(wd.streams, limit) <==> full) by {
        crate::bytes::lemma_pow256_monotone(0, wd.width);
        assert(limit == pow(256, wd.width) - 1);
    }
    if name_free(es, leaf) && !(packed && !wd.compression) && !full {
        lemma_some_unused(wd.streams, limit);
        let id = first_free(wd.streams);
        assert(first_unused(wd.streams, id));
        let s = StreamState { data: Seq::<u8>::empty(), reserved: 0, compressed: packed };
        let more = with_streams(wd, wd.streams.insert(id, s));
        let e = Entry { id, name: told_name(leaf, dir) };
        lemma_entry_added(more, d, e);
        assert(more.streams[d] == wd.streams[d]);
        assert(step_of(more, d) == step_of(wd, d));
        match made(wd, path, dir, packed) {
            Outcome::Done((i, streams)) => {
                assert(i == id);
                let rest = streams.remove(id);
                assert(rest.dom() =~= wd.streams.dom());
                assert forall|k: u64| #[trigger] wd.streams.contains_key(k) && k != d implies rest[k]
                    == wd.streams[k] by {
                    assert(more.streams.contains_key(k));
                }
                assert(more.streams.contains_key(id));
            },
            _ => {},
        }
    }
}

/// Where the directory that something is to be made, deleted or removed in cannot be
/// reached, opened for writing and read, the call is refused for that reason.
pub proof fn law_dir_shut<H>(
    wd: World<H>,
    open: Set<u64>,
    path: Seq<u8>,
    names: Seq<Seq<u8>>,
    dir: bool,
    packed: bool,
    kind: ErrorKind,
)
    requires
        wd.width <= 8,
        says(path, names),
        wd.mode is Write,
        shut(wd, names.drop_last(), OpenMode::Write, kind),
    ensures
        made(wd, path, dir, packed) == Outcome::<(u64, Map<u64, StreamState>)>::Refused(kind),
        dir_removed(wd, path) == Outcome::<Map<u64, StreamState>>::Refused(kind),
        stream_removed(wd, open, path) == Outcome::<Map<u64, StreamState>>::Refused(kind),
{
    law_path_refused(wd, path, true);
    law_valid_path(path);
    law_dir_at(wd, names.drop_last(), OpenMode::Write);
}

// ---------------------------------------------------------------------------
// Removing
// ---------------------------------------------------------------------------

/// What taking the entries of a name out of directory `d` and deleting stream `id`
/// gives: the directory has all entries of other names, the stream is gone, and no
/// other has changed.
pub open spec fn gone<H>(
    wd: World<H>,
    streams: Map<u64, StreamState>,
    d: u64,
    es: Seq<Entry>,
    name: Seq<u8>,
    id: u64,
) -> bool {
    exists|mid: Map<u64, StreamState>| #[trigger]
        only_holds(wd, mid, d, spelt_without(es, name, wd.width), 0) && streams == mid.remove(id)
}

proof fn lemma_unlinked<H>(wd: World<H>, d: u64, es: Seq<Entry>, name: Seq<u8>, id: u64)
    requires
        sized(wd),
        wd.streams.contains_key(d),
    ensures
        ({
            let out = unlinked(wd, d, es, name, id);
            let fits = room(0, spelt_without(es, name, wd.width).len(), step_of(wd, d));
            &&& !fits ==> out is TooLarge
            &&& fits && in_use(wd, id) ==> (out matches Outcome::Partly(kind, mid) && kind
                == ErrorKind::LockConflict && only_holds(
                wd,
                mid,
                d,
                spelt_without(es, name, wd.width),
                0,
            ))
            &&& fits && !in_use(wd, id) && !wd.streams.contains_key(id) ==> (
            out matches Outcome::Partly(kind, mid) && kind == ErrorKind::NotFound && only_holds(
                wd,
                mid,
                d,
                spelt_without(es, name, wd.width),
                0,
            ))
            &&& fits && !in_use(wd, id) && wd.streams.contains_key(id) ==> (
            out matches Outcome::Done(streams) && gone(wd, streams, d, es, name, id))
        }),
{
    let rest = es.filter(|e: Entry| e.name != name);
    law_without(es, name);
    lemma_entries_set(wd, d, rest);
    match entries_set(wd, d, rest) {
        Outcome::Done(mid) => {
            assert(only_holds(wd, mid, d, spelt_without(es, name, wd.width), 0));
            let w1 = with_streams(wd, mid);
            assert(is_open(w1.handles, id) <==> in_use(wd, id));
            assert(mid.contains_key(id) <==> wd.streams.contains_key(id));
        },
        _ => {},
    }
}

/// Deleting a stream is refused where there is no such name and where that stream is
/// itself open, and else does its work, whatever else is open: its name is gone from
/// the directory, and the stream with it, and nothing else has changed.
pub proof fn law_stream_deleted<H>(
    wd: World<H>,
    open: Set<u64>,
    path: Seq<u8>,
    names: Seq<Seq<u8>>,
    d: u64,
    es: Seq<Entry>,
    id: u64,
)
    requires
        sized(wd),
        says(path, names),
        wd.mode is Write,
        holds(wd, names.drop_last(), OpenMode::Write, d, es),
    ensures
        ({
            let out = stream_removed(wd, open, path);
            let name = names.last();
            let fits = room(0, spelt_without(es, name, wd.width).len(), step_of(wd, d));
            &&& unnamed(es, name) <==> out == Outcome::<Map<u64, StreamState>>::Refused(
                ErrorKind::NotFound,
            )
            &&& first_named(es, name, id) ==> {
                &&& open.contains(id) <==> out == Outcome::<Map<u64, StreamState>>::Refused(
                    ErrorKind::LockConflict,
                )
                &&& !open.contains(id) ==> {
                    &&& !fits <==> out is TooLarge
                    &&& fits && in_use(wd, id) ==> (out matches Outcome::Partly(kind, mid) && kind
                        == ErrorKind::LockConflict && only_holds(
                        wd,
                        mid,
                        d,
                        spelt_without(es, name, wd.width),
                        0,
                    ))
                    &&& fits && !in_use(wd, id) && !wd.streams.contains_key(id) ==> (
                    out matches Outcome::Partly(kind, mid) && kind == ErrorKind::NotFound
                        && only_holds(wd, mid, d, spelt_without(es, name, wd.width), 0))
                    &&& fits && !in_use(wd, id) && wd.streams.contains_key(id) <==> (
                    out matches Outcome::Done(streams) && gone(wd, streams, d, es, name, id))
                }
            }
        }),
{
    law_path_refused(wd, path, true);
    law_valid_path(path);
    law_dir_at(wd, names.drop_last(), OpenMode::Write);
    law_find(es, names.last());
    assert(walk(wd, wd.root, names.drop_last()) == Outcome::Done(d));
    assert(read_dir(wd, d, OpenMode::Write) == DirState::Entries(es));
    match find(es, names.last()) {
        Some(i) => {
            lemma_unlinked(wd, d, es, names.last(), i);
            assert(first_named(es, names.last(), i));
        },
        None => {},
    }
}

/// Removing a directory is refused where there is no such name, where it cannot be
/// opened, and where it is not empty, and else does its work: its name is gone from the
/// directory above, and its stream with it, and nothing else has changed.
pub proof fn law_dir_removed<H>(
    wd: World<H>,
    path: Seq<u8>,
    names: Seq<Seq<u8>>,
    d: u64,
    es: Seq<Entry>,
    id: u64,
    kind: ErrorKind,
)
    requires
        sized(wd),
        says(path, names),
        wd.mode is Write,
        holds(wd, names.drop_last(), OpenMode::Write, d, es),
    ensures
        ({
            let out = dir_removed(wd, path);
            let name = names.last().push(47u8);
            let fits = room(0, spelt_without(es, name, wd.width).len(), step_of(wd, d));
            &&& unnamed(es, name) ==> out == Outcome::<Map<u64, StreamState>>::Refused(
                ErrorKind::NotFound,
            )
            &&& first_named(es, name, id) ==> {
                &&& !opens(wd, id, OpenMode::Read) && barred(wd, id, OpenMode::Read, kind) ==> out
                    == Outcome::<Map<u64, StreamState>>::Refused(kind)
                &&& opens(wd, id, OpenMode::Read) ==> {
                    &&& wd.streams[id].data.len() > 0 <==> out == Outcome::<
                        Map<u64, StreamState>,
                    >::Refused(ErrorKind::NotEmpty)
                    &&& wd.streams[id].data.len() == 0 ==> {
                        &&& !fits <==> out is TooLarge
                        &&& fits && in_use(wd, id) ==> (out matches Outcome::Partly(k, mid) && k
                            == ErrorKind::LockConflict && only_holds(
                            wd,
                            mid,
                            d,
                            spelt_without(es, name, wd.width),
                            0,
                        ))
                        &&& fits && !in_use(wd, id) <==> (out matches Outcome::Done(streams)
                            && gone(wd, streams, d, es, name, id))
                    }
                }
            }
        }),
{
    law_path_refused(wd, path, true);
    law_valid_path(path);
    law_dir_at(wd, names.drop_last(), OpenMode::Write);
    let name = names.last().push(47u8);
    law_find(es, name);
    assert(walk(wd, wd.root, names.drop_last()) == Outcome::Done(d));
    assert(read_dir(wd, d, OpenMode::Write) == DirState::Entries(es));
    match find(es, name) {
        Some(i) => {
            lemma_unlinked(wd, d, es, name, i);
            law_open_refused(wd, i, OpenMode::Read);
            assert(first_named(es, name, i));
        },
        None => {},
    }
}

// ---------------------------------------------------------------------------
// Renaming
// ---------------------------------------------------------------------------

/// What moving entry `e` gives, from directory `from`, of which `rest` is left, to
/// directory `to`: the one has what is left, the other has the entry behind its own,
/// and no other stream has changed.
pub open spec fn moved<H>(
    wd: World<H>,
    streams: Map<u64, StreamState>,
    from: u64,
    rest: Seq<Entry>,
    to: u64,
    e: Entry,
) -> bool {
    if from == to {
        only_holds(wd, streams, from, spelt(rest.push(e), wd.width), 0)
    } else {
        exists|mid: Map<u64, StreamState>| #[trigger]
            only_holds(wd, mid, from, spelt(rest, wd.width), 0) && only_holds(
                with_streams(wd, mid),
                streams,
                to,
                wd.streams[to].data + spelt_one(e, wd.width),
                wd.streams[to].reserved,
            )
    }
}

/// The directories that an entry is moved between can be given the room that they then
/// need.
pub open spec fn can_be_moved<H>(
    wd: World<H>,
    from: u64,
    rest: Seq<Entry>,
    to: u64,
    e: Entry,
) -> bool {
    if from == to {
        room(0, spelt(rest.push(e), wd.width).len(), step_of(wd, from))
    } else {
        &&& room(0, spelt(rest, wd.width).len(), step_of(wd, from))
        &&& room(
            wd.streams[to].reserved,
            wd.streams[to].data.len() + spelt_one(e, wd.width).len(),
            step_of(wd, to),
        )
    }
}

/// Renaming is refused where there is no such name, where the stream is open, and
/// where the new name is taken in the directory that it would stand in, and in that
/// one only; else it does its work. The entry stands under its new name in the new
/// directory and no more in the old one, for the same stream, and nothing else has
/// changed.
pub proof fn law_renamed<H>(
    wd: World<H>,
    open: Set<u64>,
    old_path: Seq<u8>,
    old_names: Seq<Seq<u8>>,
    new_path: Seq<u8>,
    new_names: Seq<Seq<u8>>,
    dir: bool,
    from: u64,
    es: Seq<Entry>,
    id: u64,
    to: u64,
    there: Seq<Entry>,
    kind: ErrorKind,
)
    requires
        sized(wd),
        says(old_path, old_names),
        says(new_path, new_names),
        wd.mode is Write,
        !(dir && old_names.is_prefix_of(new_names.drop_last())),
        holds(wd, old_names.drop_last(), OpenMode::Write, from, es),
        leads(wd, wd.root, new_names.drop_last(), to),
    ensures
        ({
            let out = renamed(wd, open, old_path, new_path, dir);
            let old_name = told_name(old_names.last(), dir);
            let leaf = new_names.last();
            let rest = es.filter(|e: Entry| e.name != old_name);
            let e = Entry { id, name: told_name(leaf, dir) };
            &&& unnamed(es, old_name) ==> out == Outcome::<Map<u64, StreamState>>::Refused(
                ErrorKind::NotFound,
            )
            &&& first_named(es, old_name, id) && !dir && open.contains(id) ==> out == Outcome::<
                Map<u64, StreamState>,
            >::Refused(ErrorKind::LockConflict)
            &&& first_named(es, old_name, id) && (dir || !open.contains(id)) ==> {
                &&& unreadable(wd, to, OpenMode::Write, kind) ==> out == Outcome::<
                    Map<u64, StreamState>,
                >::Refused(kind)
                &&& reads(wd, to, OpenMode::Write, there) ==> {
                    &&& !name_free(there, leaf) <==> out == Outcome::<
                        Map<u64, StreamState>,
                    >::Refused(ErrorKind::AlreadyExists)
                    &&& name_free(there, leaf) ==> {
                        &&& can_be_moved(wd, from, rest, to, e) <==> out is Done
                        &&& !can_be_moved(wd, from, rest, to, e) <==> out is TooLarge
                        &&& out matches Outcome::Done(streams) ==> moved(
                            wd,
                            streams,
                            from,
                            rest,
                            to,
                            e,
                        )
                    }
                }
            }
        }),
{
    law_path_refused(wd, old_path, true);
    law_path_refused(wd, new_path, true);
    law_valid_path(old_path);
    law_valid_path(new_path);
    law_dir_at(wd, old_names.drop_last(), OpenMode::Write);
    law_walk(wd, wd.root, new_names.drop_last());
    let old_name = told_name(old_names.last(), dir);
    let leaf = new_names.last();
    law_find(es, old_name);
    law_without(es, old_name);
    assert(walk(wd, wd.root, old_names.drop_last()) == Outcome::Done(from));
    assert(walk(wd, wd.root, new_names.drop_last()) == Outcome::Done(to));
    assert(read_dir(wd, from, OpenMode::Write) == DirState::Entries(es));
    assert(entry_name(old_names.last(), dir) == old_name);
    assert(entry_name(leaf, dir) == told_name(leaf, dir));
    law_read_dir(wd, to, OpenMode::Write);
    law_read_dir(wd, from, OpenMode::Write);
    lemma_name_free(es, leaf);
    let rest = es.filter(|e: Entry| e.name != old_name);
    let e = Entry { id, name: told_name(leaf, dir) };
    if first_named(es, old_name, id) && (dir || !open.contains(id)) && reads(
        wd,
        to,
        OpenMode::Write,
        there,
    ) {
        assert(read_dir(wd, to, OpenMode::Write) == DirState::Entries(there));
        lemma_name_free(there, leaf);
        assert(find(es, old_name) == Some(id));
        if from == to {
            assert(there == es);
            lemma_entries_set(wd, from, rest.push(e));
        } else {
            lemma_entries_set(wd, from, rest);
            match entries_set(wd, from, rest) {
                Outcome::Done(mid) => {
                    let w1 = with_streams(wd, mid);
                    assert(mid[to] == wd.streams[to]);
                    lemma_entry_added(w1, to, e);
                    assert(step_of(w1, to) == step_of(wd, to));
                    assert(only_holds(wd, mid, from, spelt(rest, wd.width), 0));
                },
                _ => {},
            }
        }
    }
}

/// Renaming is refused where a directory would stand below itself, and where a
/// directory of either path cannot be reached, opened for writing and read.
pub proof fn law_rename_refused<H>(
    wd: World<H>,
    open: Set<u64>,
    old_path: Seq<u8>,
    old_names: Seq<Seq<u8>>,
    new_path: Seq<u8>,
    new_names: Seq<Seq<u8>>,
    dir: bool,
    from: u64,
    kind: ErrorKind,
)
    requires
        wd.width <= 8,
        says(old_path, old_names),
        says(new_path, new_names),
        wd.mode is Write,
    ensures
        ({
            let out = renamed(wd, open, old_path, new_path, dir);
            let below = dir && old_names.is_prefix_of(new_names.drop_last());
            &&& below ==> out == Outcome::<Map<u64, StreamState>>::Refused(ErrorKind::InvalidPath)
            &&& !below ==> {
                &&& stuck(wd, wd.root, old_names.drop_last(), kind) ==> out == Outcome::<
                    Map<u64, StreamState>,
                >::Refused(kind)
                &&& leads(wd, wd.root, old_names.drop_last(), from) ==> {
                    &&& stuck(wd, wd.root, new_names.drop_last(), kind) ==> out == Outcome::<
                        Map<u64, StreamState>,
                    >::Refused(kind)
                    &&& (exists|to: u64| #[trigger]
                        leads(wd, wd.root, new_names.drop_last(), to)) && unreadable(
                        wd,
                        from,
                        OpenMode::Write,
                        kind,
                    ) ==> out == Outcome::<Map<u64, StreamState>>::Refused(kind)
                }
            }
        }),
{
    law_path_refused(wd, old_path, true);
    law_path_refused(wd, new_path, true);
    law_valid_path(old_path);
    law_valid_path(new_path);
    law_walk(wd, wd.root, old_names.drop_last());
    law_walk(wd, wd.root, new_names.drop_last());
    law_read_dir(wd, from, OpenMode::Write);
    if exists|to: u64| #[trigger] leads(wd, wd.root, new_names.drop_last(), to) {
        let to = choose|to: u64| #[trigger] leads(wd, wd.root, new_names.drop_last(), to);
        assert(walk(wd, wd.root, new_names.drop_last()) == Outcome::Done(to));
    }
}

} // verus!
