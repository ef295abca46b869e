//! What paths lead to after a change: the new name to the stream, an old name to
//! nothing, and all others to where they led before.

use crate::dir_entries::{
    find, law_entry_appended, law_others_stay, lemma_find_pushed, parsed, without, Entry,
};
use crate::names::{components, dir_name, dirs_of, leaf_of, lemma_components, names_dir};
use crate::sfs_model::{
    dir_listed, entry_name, handles_live, made, read_dir, renamed, stream_found, stream_removed,
    walk, with_streams, DirState, ErrorKind, Outcome, World,
};
use crate::stream_layer::{can_open, StreamState};
use crate::transfer::{got, put};
use crate::tree_shape::{
    held_in, lemma_found, lemma_in_dir, lemma_leaf, lemma_made_adds, lemma_renames, lemma_rooted,
    lemma_unlinks, lemma_walk_in_tree, lemma_walk_push, sound, sound_as, Shape,
};
use crate::types::OpenMode;
use vstd::prelude::*;
use vstd::utf8::valid_utf8;

verus! {

/// In the directories `on`, what was found under the name of a directory is found
/// there still, and is one of them.
pub open spec fn ways_kept<H>(w0: World<H>, w1: World<H>, on: Set<u64>) -> bool {
    forall|d: u64| #[trigger] on.contains(d) ==> dir_kept(w0, w1, on, d)
}

pub open spec fn dir_kept<H>(w0: World<H>, w1: World<H>, on: Set<u64>, d: u64) -> bool {
    read_dir(w0, d, OpenMode::Read) matches DirState::Entries(e0) ==> {
        &&& read_dir(w1, d, OpenMode::Read) is Entries
        &&& forall|name: Seq<u8>|
            #![trigger find(e0, name)]
            names_dir(name) && find(e0, name) is Some ==> on.contains(find(e0, name).unwrap())
                && find(read_dir(w1, d, OpenMode::Read)->Entries_0, name) == find(e0, name)
    }
}

/// A walk that ended well ends in the same directory.
proof fn lemma_way_kept<H>(
    w0: World<H>,
    w1: World<H>,
    on: Set<u64>,
    cur: u64,
    names: Seq<Seq<u8>>,
)
    requires
        ways_kept(w0, w1, on),
        on.contains(cur),
        walk(w0, cur, names) is Done,
    ensures
        walk(w1, cur, names) == walk(w0, cur, names),
        on.contains(walk(w0, cur, names)->Done_0),
    decreases names.len(),
{
    if names.len() > 0 {
        assert(dir_kept(w0, w1, on, cur));
        match read_dir(w0, cur, OpenMode::Read) {
            DirState::Entries(es) => {
                let name = dir_name(names[0]);
                assert(names_dir(name));
                let id = find(es, name).unwrap();
                lemma_way_kept(w0, w1, on, id, names.skip(1));
            },
            _ => {},
        }
    }
}

/// The streams that were there lead to where they led; `id` is a new stream, of
/// which anything may be written.
pub proof fn lemma_added_keeps<H>(
    wd: World<H>,
    path: Seq<u8>,
    dir: bool,
    packed: bool,
    s: StreamState,
)
    requires
        handles_live(wd),
        1 <= wd.width <= 8,
        valid_utf8(path),
        made(wd, path, dir, packed) is Done,
        ({
            let p = walk(wd, wd.root, dirs_of(path))->Done_0;
            made(wd, path, dir, packed)->Done_0.1[p].data.len() <= usize::MAX
        }),
    ensures
        ({
            let (id, streams) = made(wd, path, dir, packed)->Done_0;
            let w1 = with_streams(wd, streams.insert(id, s));
            let p = walk(wd, wd.root, dirs_of(path))->Done_0;
            let es = parsed(wd.streams[p].data, wd.width).unwrap();
            let e = Entry { id, name: entry_name(leaf_of(path), dir) };
            &&& ways_kept(wd, w1, Set::full())
            &&& read_dir(wd, p, OpenMode::Read) == DirState::Entries(es)
            &&& read_dir(w1, p, OpenMode::Read) == DirState::Entries(es.push(e))
            &&& forall|d: u64|
                d != p && read_dir(wd, d, OpenMode::Read) is Entries ==> #[trigger] read_dir(
                    w1,
                    d,
                    OpenMode::Read,
                ) == read_dir(wd, d, OpenMode::Read)
            &&& forall|i: u64|
                wd.streams.contains_key(i) && i != p ==> #[trigger] w1.streams.contains_key(i)
                    && w1.streams[i] == wd.streams[i]
            &&& w1.streams.contains_key(p)
            &&& w1.streams.contains_key(id) && w1.streams[id] == s
            &&& p != id && id != u64::MAX
            &&& find(es, leaf_of(path)) is None
            &&& find(es, dir_name(leaf_of(path))) is None
        }),
{
    lemma_made_adds(wd, path, dir, packed);
    lemma_leaf(path, dir);
    let (id, streams) = made(wd, path, dir, packed)->Done_0;
    let w1 = with_streams(wd, streams.insert(id, s));
    let p = walk(wd, wd.root, dirs_of(path))->Done_0;
    let es = parsed(wd.streams[p].data, wd.width).unwrap();
    let e = Entry { id, name: entry_name(leaf_of(path), dir) };
    crate::bytes::lemma_pow256_monotone(0, wd.width);
    crate::bytes::lemma_pow256_monotone(wd.width, 8);
    crate::bytes::lemma_pow256_values();
    law_entry_appended(wd.streams[p].data, e, wd.width);
    assert forall|d: u64| d != p && read_dir(wd, d, OpenMode::Read) is Entries implies #[trigger] read_dir(
        w1,
        d,
        OpenMode::Read,
    ) == read_dir(wd, d, OpenMode::Read) by {
        assert(d != id);
    }
    assert forall|d: u64| #[trigger] Set::<u64>::full().contains(d) implies dir_kept(
        wd,
        w1,
        Set::full(),
        d,
    ) by {
        if read_dir(wd, d, OpenMode::Read) is Entries {
            let e0 = read_dir(wd, d, OpenMode::Read)->Entries_0;
            if d == p {
                assert forall|name: Seq<u8>|
                    #![trigger find(e0, name)]
                    names_dir(name) && find(e0, name) is Some implies find(
                    es.push(e),
                    name,
                ) == find(e0, name) by {
                    lemma_find_pushed(es, e, name);
                }
            } else {
                assert(read_dir(w1, d, OpenMode::Read) == read_dir(wd, d, OpenMode::Read));
            }
        }
    }
}

/// The way to the directory in which something was made.
pub proof fn lemma_way_to<H>(
    wd: World<H>,
    path: Seq<u8>,
    dir: bool,
    packed: bool,
    s: StreamState,
)
    requires
        handles_live(wd),
        1 <= wd.width <= 8,
        valid_utf8(path),
        made(wd, path, dir, packed) is Done,
        ({
            let p = walk(wd, wd.root, dirs_of(path))->Done_0;
            made(wd, path, dir, packed)->Done_0.1[p].data.len() <= usize::MAX
        }),
    ensures
        ({
            let (id, streams) = made(wd, path, dir, packed)->Done_0;
            walk(with_streams(wd, streams.insert(id, s)), wd.root, dirs_of(path)) == walk(
                wd,
                wd.root,
                dirs_of(path),
            )
        }),
{
    let (id, streams) = made(wd, path, dir, packed)->Done_0;
    lemma_made_adds(wd, path, dir, packed);
    lemma_added_keeps(wd, path, dir, packed, s);
    lemma_way_kept(
        wd,
        with_streams(wd, streams.insert(id, s)),
        Set::full(),
        wd.root,
        dirs_of(path),
    );
}

/// A stream that was found is found still.
proof fn lemma_found_still<H>(
    wd: World<H>,
    path: Seq<u8>,
    dir: bool,
    packed: bool,
    s: StreamState,
    other: Seq<u8>,
    mode: OpenMode,
)
    requires
        handles_live(wd),
        1 <= wd.width <= 8,
        valid_utf8(path),
        made(wd, path, dir, packed) is Done,
        ({
            let p = walk(wd, wd.root, dirs_of(path))->Done_0;
            made(wd, path, dir, packed)->Done_0.1[p].data.len() <= usize::MAX
        }),
        stream_found(wd, other, mode) is Done,
    ensures
        ({
            let (id, streams) = made(wd, path, dir, packed)->Done_0;
            let w1 = with_streams(wd, streams.insert(id, s));
            stream_found(w1, other, mode) == stream_found(wd, other, mode)
        }),
{
    let (id, streams) = made(wd, path, dir, packed)->Done_0;
    let w1 = with_streams(wd, streams.insert(id, s));
    lemma_added_keeps(wd, path, dir, packed, s);
    lemma_way_kept(wd, w1, Set::full(), wd.root, dirs_of(other));
    let d = walk(wd, wd.root, dirs_of(other))->Done_0;
    let p = walk(wd, wd.root, dirs_of(path))->Done_0;
    let found = stream_found(wd, other, mode)->Done_0;
    let es = read_dir(wd, d, OpenMode::Read)->Entries_0;
    if d == p {
        lemma_find_pushed(es, Entry { id, name: entry_name(leaf_of(path), dir) }, leaf_of(other));
    } else {
        assert(read_dir(w1, d, OpenMode::Read) == read_dir(wd, d, OpenMode::Read));
    }
    assert(w1.streams.contains_key(found));
}

/// A stream that was made is found by its path, by readers and by writers, and every
/// other is found as it was, where the directory fits into memory.
pub proof fn law_made_found<H>(
    wd: World<H>,
    path: Seq<u8>,
    packed: bool,
    other: Seq<u8>,
    mode: OpenMode,
)
    requires
        handles_live(wd),
        1 <= wd.width <= 8,
        valid_utf8(path),
        made(wd, path, false, packed) is Done,
        ({
            let p = walk(wd, wd.root, dirs_of(path))->Done_0;
            made(wd, path, false, packed)->Done_0.1[p].data.len() <= usize::MAX
        }),
    ensures
        ({
            let (id, streams) = made(wd, path, false, packed)->Done_0;
            let w1 = with_streams(wd, streams);
            &&& stream_found(w1, path, mode) == Outcome::Done(id)
            &&& stream_found(wd, other, mode) is Done ==> stream_found(
                w1,
                other,
                mode,
            ) == stream_found(wd, other, mode)
        }),
{
    let (id, streams) = made(wd, path, false, packed)->Done_0;
    lemma_made_adds(wd, path, false, packed);
    assert(streams.insert(id, streams[id]) =~= streams);
    lemma_new_found(wd, path, packed, streams[id], mode);
    if stream_found(wd, other, mode) is Done {
        lemma_found_still(wd, path, false, packed, streams[id], other, mode);
    }
}

proof fn lemma_new_found<H>(
    wd: World<H>,
    path: Seq<u8>,
    packed: bool,
    s: StreamState,
    mode: OpenMode,
)
    requires
        handles_live(wd),
        1 <= wd.width <= 8,
        valid_utf8(path),
        made(wd, path, false, packed) is Done,
        ({
            let p = walk(wd, wd.root, dirs_of(path))->Done_0;
            made(wd, path, false, packed)->Done_0.1[p].data.len() <= usize::MAX
        }),
    ensures
        ({
            let (id, streams) = made(wd, path, false, packed)->Done_0;
            let w1 = with_streams(wd, streams.insert(id, s));
            &&& stream_found(w1, path, mode) == Outcome::Done(id)
            &&& w1.streams[id] == s
        }),
{
    let (id, streams) = made(wd, path, false, packed)->Done_0;
    let w1 = with_streams(wd, streams.insert(id, s));
    lemma_made_adds(wd, path, false, packed);
    lemma_added_keeps(wd, path, false, packed, s);
    lemma_way_kept(wd, w1, Set::full(), wd.root, dirs_of(path));
    let p = walk(wd, wd.root, dirs_of(path))->Done_0;
    let es = parsed(wd.streams[p].data, wd.width).unwrap();
    lemma_find_pushed(es, Entry { id, name: leaf_of(path) }, leaf_of(path));
    assert(can_open(w1.handles, id, mode)) by {
        assert forall|h: H| #[trigger]
            w1.handles.contains_key(h) && w1.handles[h].stream == id implies false by {
            assert(wd.handles.contains_key(h));
        }
    }
}

/// What was put into a new stream is got out of it, where stream and directory fit
/// into memory.
pub proof fn law_put_got<H>(wd: World<H>, path: Seq<u8>, data: Seq<u8>, packed: bool)
    requires
        handles_live(wd),
        1 <= wd.width <= 8,
        valid_utf8(path),
        data.len() <= usize::MAX,
        put(wd, path, data, packed) is Done,
        ({
            let p = walk(wd, wd.root, dirs_of(path))->Done_0;
            put(wd, path, data, packed)->Done_0[p].data.len() <= usize::MAX
        }),
    ensures
        got(with_streams(wd, put(wd, path, data, packed)->Done_0), path) == Outcome::Done(data),
{
    lemma_made_adds(wd, path, false, packed);
    let (id, streams) = made(wd, path, false, packed)->Done_0;
    let p = walk(wd, wd.root, dirs_of(path))->Done_0;
    let s = put(wd, path, data, packed)->Done_0[id];
    assert(put(wd, path, data, packed)->Done_0[p] == streams[p]);
    lemma_new_found(wd, path, packed, s, OpenMode::Read);
}

/// What was got before a stream was put is got after it, where the name fits an
/// entry and the directory fits into memory.
pub proof fn law_put_keeps<H>(
    wd: World<H>,
    path: Seq<u8>,
    data: Seq<u8>,
    packed: bool,
    open: Set<u64>,
    other: Seq<u8>,
)
    requires
        sound(wd, open),
        handles_live(wd),
        valid_utf8(path),
        valid_utf8(other),
        put(wd, path, data, packed) is Done,
        ({
            let p = walk(wd, wd.root, dirs_of(path))->Done_0;
            put(wd, path, data, packed)->Done_0[p].data.len() <= usize::MAX
        }),
        got(wd, other) is Done,
    ensures
        got(with_streams(wd, put(wd, path, data, packed)->Done_0), other) == got(wd, other),
{
    let shape = choose|shape: Shape| #[trigger] sound_as(wd, open, shape);
    lemma_made_adds(wd, path, false, packed);
    let (id, streams) = made(wd, path, false, packed)->Done_0;
    let p = walk(wd, wd.root, dirs_of(path))->Done_0;
    let s = put(wd, path, data, packed)->Done_0[id];
    assert(put(wd, path, data, packed)->Done_0[p] == streams[p]);
    lemma_found_still(wd, path, false, packed, s, other, OpenMode::Read);
    lemma_added_keeps(wd, path, false, packed, s);
    // The other is no directory, so it is not the one that has grown.
    let d = walk(wd, wd.root, dirs_of(other))->Done_0;
    lemma_rooted(wd.streams, wd.width, wd.root, shape);
    lemma_walk_in_tree(wd, shape, wd.root, dirs_of(other));
    lemma_walk_in_tree(wd, shape, wd.root, dirs_of(path));
    lemma_in_dir(wd.streams, wd.width, wd.root, shape, d);
    lemma_leaf(other, false);
    lemma_found(held_in(wd.streams, wd.width, d), leaf_of(other));
    let found = stream_found(wd, other, OpenMode::Read)->Done_0;
    assert(!shape.dirs.contains(found));
    assert(found != p);
    assert(wd.streams.contains_key(found));
}

/// A directory that was made is listed as empty, where the directory above fits into
/// memory.
pub proof fn law_made_listed<H>(wd: World<H>, path: Seq<u8>)
    requires
        handles_live(wd),
        1 <= wd.width <= 8,
        valid_utf8(path),
        made(wd, path, true, false) is Done,
        ({
            let p = walk(wd, wd.root, dirs_of(path))->Done_0;
            made(wd, path, true, false)->Done_0.1[p].data.len() <= usize::MAX
        }),
    ensures
        dir_listed(with_streams(wd, made(wd, path, true, false)->Done_0.1), path) == Outcome::Done(
            Seq::<Entry>::empty(),
        ),
{
    let (id, streams) = made(wd, path, true, false)->Done_0;
    lemma_made_adds(wd, path, true, false);
    let s = streams[id];
    assert(streams.insert(id, s) =~= streams);
    lemma_added_keeps(wd, path, true, false, s);
    let w1 = with_streams(wd, streams);
    lemma_way_kept(wd, w1, Set::full(), wd.root, dirs_of(path));
    let p = walk(wd, wd.root, dirs_of(path))->Done_0;
    let es = parsed(wd.streams[p].data, wd.width).unwrap();
    let leaf = leaf_of(path);
    lemma_find_pushed(es, Entry { id, name: dir_name(leaf) }, dir_name(leaf));
    lemma_components(path);
    lemma_walk_push(w1, w1.root, dirs_of(path), leaf);
    assert(components(path) =~= dirs_of(path).push(leaf));
    let one = seq![leaf];
    assert(one[0] == leaf);
    assert(one.skip(1) =~= Seq::<Seq<u8>>::empty());
    reveal_with_fuel(walk, 2);
    assert(walk(w1, w1.root, components(path)) == Outcome::Done(id));
    assert(can_open(w1.handles, id, OpenMode::Read)) by {
        assert forall|h: H| #[trigger]
            w1.handles.contains_key(h) && w1.handles[h].stream == id implies false by {
            assert(wd.handles.contains_key(h));
        }
    }
    assert(parsed(Seq::<u8>::empty(), wd.width) == Some(Seq::<Entry>::empty()));
}

/// A stream that was deleted is found no more, by readers or by writers, and every
/// other is found as it was, where the directory fits into memory.
pub proof fn law_removed_gone<H>(
    wd: World<H>,
    open: Set<u64>,
    path: Seq<u8>,
    other: Seq<u8>,
    mode: OpenMode,
)
    requires
        sound(wd, open),
        valid_utf8(path),
        valid_utf8(other),
        stream_removed(wd, open, path) is Done,
        ({
            let p = walk(wd, wd.root, dirs_of(path))->Done_0;
            stream_removed(wd, open, path)->Done_0[p].data.len() <= usize::MAX
        }),
    ensures
        ({
            let streams = stream_removed(wd, open, path)->Done_0;
            let w1 = with_streams(wd, streams);
            &&& stream_found(w1, path, mode) == Outcome::<u64>::Refused(
                ErrorKind::NotFound,
            )
            &&& stream_found(wd, other, mode) matches Outcome::Done(found)
                ==> streams.contains_key(found) ==> stream_found(w1, other, mode)
                == Outcome::Done(found) && streams[found] == wd.streams[found]
        }),
{
    let shape = choose|shape: Shape| #[trigger] sound_as(wd, open, shape);
    let w = wd.width;
    let streams = stream_removed(wd, open, path)->Done_0;
    let w1 = with_streams(wd, streams);
    let p = walk(wd, wd.root, dirs_of(path))->Done_0;
    let name = leaf_of(path);
    lemma_rooted(wd.streams, w, wd.root, shape);
    lemma_walk_in_tree(wd, shape, wd.root, dirs_of(path));
    lemma_leaf(path, false);
    lemma_in_dir(wd.streams, w, wd.root, shape, p);
    let es = held_in(wd.streams, w, p);
    let id = find(es, name).unwrap();
    lemma_found(es, name);
    assert(!shape.dirs.contains(id));
    lemma_unlinks(wd, p, es, name, id);
    assert(read_dir(w1, p, OpenMode::Read) == DirState::Entries(without(es, name)));
    assert forall|d: u64| #[trigger] shape.dirs.contains(d) implies dir_kept(
        wd,
        w1,
        shape.dirs,
        d,
    ) by {
        lemma_in_dir(wd.streams, w, wd.root, shape, d);
        if read_dir(wd, d, OpenMode::Read) is Entries {
            let e0 = held_in(wd.streams, w, d);
            assert(d != id);
            if d != p {
                assert(streams[d] == wd.streams[d]);
            }
            assert forall|n: Seq<u8>|
                #![trigger find(e0, n)]
                names_dir(n) && find(e0, n) is Some implies shape.dirs.contains(
                find(e0, n).unwrap(),
            ) && find(read_dir(w1, d, OpenMode::Read)->Entries_0, n) == find(e0, n) by {
                lemma_found(e0, n);
                if d == p {
                    law_others_stay(es, name, n);
                }
            }
        }
    }
    lemma_way_kept(wd, w1, shape.dirs, wd.root, dirs_of(path));
    law_others_stay(es, name, name);
    if stream_found(wd, other, mode) is Done {
        let found = stream_found(wd, other, mode)->Done_0;
        if streams.contains_key(found) {
            lemma_way_kept(wd, w1, shape.dirs, wd.root, dirs_of(other));
            let d = walk(wd, wd.root, dirs_of(other))->Done_0;
            lemma_in_dir(wd.streams, w, wd.root, shape, d);
            let e0 = held_in(wd.streams, w, d);
            lemma_found(e0, leaf_of(other));
            lemma_leaf(other, false);
            assert(!shape.dirs.contains(found));
            if d == p {
                law_others_stay(es, name, leaf_of(other));
            } else {
                assert(d != id);
                assert(streams[d] == wd.streams[d]);
            }
        }
    }
}

/// A stream that was renamed is found by its new path, with what it held, and no
/// more by its old one, by readers and by writers. Every other stream is found as it was.
/// The directories must fit into memory.
pub proof fn law_renamed_found<H>(
    wd: World<H>,
    open: Set<u64>,
    old_path: Seq<u8>,
    new_path: Seq<u8>,
    other: Seq<u8>,
    mode: OpenMode,
)
    requires
        sound(wd, open),
        valid_utf8(old_path),
        valid_utf8(new_path),
        valid_utf8(other),
        renamed(wd, open, old_path, new_path, false) is Done,
        stream_found(wd, old_path, mode) is Done,
        ({
            let streams = renamed(wd, open, old_path, new_path, false)->Done_0;
            let p = walk(wd, wd.root, dirs_of(old_path))->Done_0;
            let q = walk(wd, wd.root, dirs_of(new_path))->Done_0;
            streams[p].data.len() <= usize::MAX && streams[q].data.len() <= usize::MAX
        }),
    ensures
        ({
            let streams = renamed(wd, open, old_path, new_path, false)->Done_0;
            let w1 = with_streams(wd, streams);
            let id = stream_found(wd, old_path, mode)->Done_0;
            &&& stream_found(w1, new_path, mode) == Outcome::Done(id)
            &&& streams[id] == wd.streams[id]
            &&& stream_found(w1, old_path, mode) == Outcome::<u64>::Refused(
                ErrorKind::NotFound,
            )
            &&& stream_found(wd, other, mode) matches Outcome::Done(found) ==> found != id
                ==> stream_found(w1, other, mode) == Outcome::Done(found)
                && streams[found] == wd.streams[found]
        }),
{
    let shape = choose|shape: Shape| #[trigger] sound_as(wd, open, shape);
    let w = wd.width;
    lemma_renames(wd, open, old_path, new_path, false);
    let streams = renamed(wd, open, old_path, new_path, false)->Done_0;
    let w1 = with_streams(wd, streams);
    let p = walk(wd, wd.root, dirs_of(old_path))->Done_0;
    let q = walk(wd, wd.root, dirs_of(new_path))->Done_0;
    let name = leaf_of(old_path);
    lemma_rooted(wd.streams, w, wd.root, shape);
    lemma_walk_in_tree(wd, shape, wd.root, dirs_of(old_path));
    lemma_walk_in_tree(wd, shape, wd.root, dirs_of(new_path));
    lemma_leaf(old_path, false);
    lemma_leaf(new_path, false);
    lemma_in_dir(wd.streams, w, wd.root, shape, p);
    lemma_in_dir(wd.streams, w, wd.root, shape, q);
    let es = held_in(wd.streams, w, p);
    let id = find(es, name).unwrap();
    let e = Entry { id, name: leaf_of(new_path) };
    lemma_found(es, name);
    assert(!shape.dirs.contains(id));
    let rest = without(es, name);
    let there = held_in(wd.streams, w, q);
    assert forall|d: u64| #[trigger] shape.dirs.contains(d) implies dir_kept(
        wd,
        w1,
        shape.dirs,
        d,
    ) by {
        lemma_in_dir(wd.streams, w, wd.root, shape, d);
        if read_dir(wd, d, OpenMode::Read) is Entries {
            let e0 = held_in(wd.streams, w, d);
            if d != p && d != q {
                assert(streams[d] == wd.streams[d]);
            }
            assert forall|n: Seq<u8>|
                #![trigger find(e0, n)]
                names_dir(n) && find(e0, n) is Some implies shape.dirs.contains(
                find(e0, n).unwrap(),
            ) && find(read_dir(w1, d, OpenMode::Read)->Entries_0, n) == find(e0, n) by {
                lemma_found(e0, n);
                law_others_stay(es, name, n);
                lemma_find_pushed(rest, e, n);
                lemma_find_pushed(there, e, n);
            }
        }
    }
    lemma_way_kept(wd, w1, shape.dirs, wd.root, dirs_of(old_path));
    lemma_way_kept(wd, w1, shape.dirs, wd.root, dirs_of(new_path));
    law_others_stay(es, name, leaf_of(new_path));
    law_others_stay(es, name, name);
    lemma_find_pushed(rest, e, leaf_of(new_path));
    lemma_find_pushed(there, e, leaf_of(new_path));
    lemma_find_pushed(rest, e, name);
    if stream_found(wd, other, mode) is Done {
        let found = stream_found(wd, other, mode)->Done_0;
        if found != id {
            let leaf = leaf_of(other);
            lemma_way_kept(wd, w1, shape.dirs, wd.root, dirs_of(other));
            let d = walk(wd, wd.root, dirs_of(other))->Done_0;
            lemma_in_dir(wd.streams, w, wd.root, shape, d);
            let e0 = held_in(wd.streams, w, d);
            lemma_found(e0, leaf);
            lemma_leaf(other, false);
            assert(!shape.dirs.contains(found));
            law_others_stay(es, name, leaf);
            lemma_find_pushed(rest, e, leaf);
            lemma_find_pushed(there, e, leaf);
            if d != p && d != q {
                assert(streams[d] == wd.streams[d]);
            }
        }
    }
}

} // verus!
