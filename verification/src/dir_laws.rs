//! What directories list after a change.

use crate::dir_entries::{
    find, inserted, law_others_stay, lemma_find_pushed, listed, listing, parsed, without, Entry,
    Listed,
};
use crate::names::{
    bare, components, dir_name, dirs_of, leaf_of, lemma_components, name_less, names_dir,
};
use crate::path_laws::{lemma_added_keeps, lemma_way_to};
use crate::sfs_model::{
    deleted, dir_removed, dir_removed_in, entries_set, handles_live, made, path_refused, read_dir,
    renamed, stream_found, stream_removed, strays, unlinked, walk, with_streams, DirState,
    ErrorKind, Outcome, World,
};
use crate::stream_layer::{can_open, is_open, StreamState};
use crate::tree_shape::{
    below, held_in, lemma_below_rank, lemma_found, lemma_in_dir, lemma_leaf, lemma_made_adds,
    lemma_not_below, lemma_renames, lemma_rooted, lemma_unlinks, lemma_walk_in_tree,
    lemma_walk_push, sound, sound_as, Shape,
};
use crate::types::OpenMode;
use vstd::prelude::*;
use vstd::utf8::valid_utf8;

verus! {

/// No two lines of a listing have the same name.
pub open spec fn names_apart(list: Seq<Listed>) -> bool {
    forall|i: int, j: int|
        0 <= i < j < list.len() ==> (#[trigger] list[i]).name != (#[trigger] list[j]).name
}

proof fn lemma_inserted_apart(list: Seq<Listed>, x: Listed)
    requires
        names_apart(list),
        forall|i: int| 0 <= i < list.len() ==> (#[trigger] list[i]).name != x.name,
    ensures
        names_apart(inserted(list, x)),
        forall|y: Listed| #[trigger]
            inserted(list, x).contains(y) ==> y == x || list.contains(y),
    decreases list.len(),
{
    let all = inserted(list, x);
    if list.len() == 0 {
        assert(all =~= seq![x]);
    } else if name_less(x.name, list.last().name) {
        let less = list.drop_last();
        let last = list.last();
        lemma_inserted_apart(less, x);
        let more = inserted(less, x);
        assert(all =~= more.push(last));
        assert forall|i: int| 0 <= i < more.len() implies (#[trigger] more[i]).name
            != last.name by {
            assert(more.contains(more[i]));
            if more[i] != x {
                let k = choose|k: int| 0 <= k < less.len() && less[k] == more[i];
                assert(list[k] == less[k]);
            }
        }
        assert forall|i: int, j: int| 0 <= i < j < all.len() implies (#[trigger] all[i]).name != (
        #[trigger] all[j]).name by {
            assert(all[i] == more[i]);
            if j < more.len() {
                assert(all[j] == more[j]);
            }
        }
        assert forall|y: Listed| #[trigger] all.contains(y) implies y == x || list.contains(y) by {
            let k = choose|k: int| 0 <= k < all.len() && all[k] == y;
            if k < more.len() {
                assert(more.contains(more[k]));
                if y != x {
                    let l = choose|l: int| 0 <= l < less.len() && less[l] == y;
                    assert(list[l] == y);
                }
            } else {
                assert(list[list.len() - 1] == y);
            }
        }
    } else {
        assert forall|y: Listed| #[trigger] all.contains(y) implies y == x || list.contains(y) by {
            let k = choose|k: int| 0 <= k < all.len() && all[k] == y;
            if k < list.len() {
                assert(list[k] == y);
            }
        }
    }
}

proof fn lemma_listing_apart(es: Seq<Entry>)
    requires
        forall|i: int, j: int|
            0 <= i < j < es.len() ==> bare((#[trigger] es[i]).name) != bare(
                (#[trigger] es[j]).name,
            ),
    ensures
        names_apart(listing(es)),
        forall|y: Listed| #[trigger]
            listing(es).contains(y) ==> exists|i: int|
                0 <= i < es.len() && listed(#[trigger] es[i]) == y,
    decreases es.len(),
{
    if es.len() > 0 {
        let less = es.drop_last();
        let x = listed(es.last());
        assert forall|i: int, j: int| 0 <= i < j < less.len() implies bare(
            (#[trigger] less[i]).name,
        ) != bare((#[trigger] less[j]).name) by {
            assert(less[i] == es[i] && less[j] == es[j]);
        }
        lemma_listing_apart(less);
        let list = listing(less);
        assert forall|i: int| 0 <= i < list.len() implies (#[trigger] list[i]).name != x.name by {
            assert(list.contains(list[i]));
            let k = choose|k: int| 0 <= k < less.len() && listed(#[trigger] less[k]) == list[i];
            assert(less[k] == es[k]);
            assert(bare(es[k].name) != bare(es[es.len() - 1].name));
        }
        lemma_inserted_apart(list, x);
        assert forall|y: Listed| #[trigger] listing(es).contains(y) implies exists|i: int|
            0 <= i < es.len() && listed(#[trigger] es[i]) == y by {
            if y == x {
                assert(listed(es[es.len() - 1]) == y);
            } else {
                let k = choose|k: int| 0 <= k < less.len() && listed(#[trigger] less[k]) == y;
                assert(listed(es[k]) == y);
            }
        }
    }
}

/// A listing of a directory of the tree names nothing twice: not two streams, not
/// two directories, and not a stream and a directory.
pub proof fn law_listing_distinct<H>(wd: World<H>, open: Set<u64>, names: Seq<Seq<u8>>)
    requires
        sound(wd, open),
        walk(wd, wd.root, names) is Done,
    ensures
        ({
            let d = walk(wd, wd.root, names)->Done_0;
            read_dir(wd, d, OpenMode::Read) matches DirState::Entries(es) ==> names_apart(
                listing(es),
            )
        }),
{
    let shape = choose|shape: Shape| #[trigger] sound_as(wd, open, shape);
    let d = walk(wd, wd.root, names)->Done_0;
    lemma_rooted(wd.streams, wd.width, wd.root, shape);
    lemma_walk_in_tree(wd, shape, wd.root, names);
    lemma_in_dir(wd.streams, wd.width, wd.root, shape, d);
    match read_dir(wd, d, OpenMode::Read) {
        DirState::Entries(es) => {
            assert(es == held_in(wd.streams, wd.width, d));
            lemma_listing_apart(es);
        },
        _ => {},
    }
}

/// A file that was opened for reading refuses every change, whatever it holds.
pub proof fn law_read_only<H>(
    wd: World<H>,
    open: Set<u64>,
    path: Seq<u8>,
    new_path: Seq<u8>,
    dir: bool,
    packed: bool,
)
    requires
        wd.mode is Read,
    ensures
        made(wd, path, dir, packed) == Outcome::<(u64, Map<u64, StreamState>)>::Refused(
            ErrorKind::ReadOnly,
        ),
        dir_removed(wd, path) == Outcome::<Map<u64, StreamState>>::Refused(ErrorKind::ReadOnly),
        stream_removed(wd, open, path) == Outcome::<Map<u64, StreamState>>::Refused(
            ErrorKind::ReadOnly,
        ),
        renamed(wd, open, path, new_path, dir) == Outcome::<Map<u64, StreamState>>::Refused(
            ErrorKind::ReadOnly,
        ),
        stream_found(wd, path, OpenMode::Write) == Outcome::<u64>::Refused(ErrorKind::ReadOnly),
{
}

/// A walk through a tree that ends with `NotFound` has come to a directory without
/// the next name, and the other way round.
proof fn lemma_strays<H>(wd: World<H>, shape: Shape, cur: u64, names: Seq<Seq<u8>>)
    requires
        sound_as(wd, Set::empty(), shape),
        shape.dirs.contains(cur),
    ensures
        strays(wd, cur, names) <==> walk(wd, cur, names) == Outcome::<u64>::Refused(
            ErrorKind::NotFound,
        ),
    decreases names.len(),
{
    if names.len() > 0 {
        lemma_in_dir(wd.streams, wd.width, wd.root, shape, cur);
        match read_dir(wd, cur, OpenMode::Read) {
            DirState::Entries(es) => {
                let name = dir_name(names[0]);
                lemma_found(es, name);
                match find(es, name) {
                    Some(id) => {
                        let i = choose|i: int|
                            0 <= i < es.len() && (#[trigger] es[i]).name == name && es[i].id == id;
                        assert(names_dir(es[i].name));
                        lemma_strays(wd, shape, id, names.skip(1));
                    },
                    None => {},
                }
            },
            _ => {},
        }
    }
}

/// Making a stream or a directory gives `NotFound` if and only if a directory on the
/// way to it does not exist, where the path is one that could be made.
pub proof fn law_no_parent<H>(
    wd: World<H>,
    open: Set<u64>,
    path: Seq<u8>,
    dir: bool,
    packed: bool,
)
    requires
        sound(wd, open),
        path_refused(wd, path, true) is None,
    ensures
        made(wd, path, dir, packed) == Outcome::<(u64, Map<u64, StreamState>)>::Refused(
            ErrorKind::NotFound,
        ) <==> strays(wd, wd.root, dirs_of(path)),
{
    let shape = choose|shape: Shape| #[trigger] sound_as(wd, open, shape);
    assert(sound_as(wd, Set::empty(), shape));
    lemma_rooted(wd.streams, wd.width, wd.root, shape);
    lemma_strays(wd, shape, wd.root, dirs_of(path));
    lemma_walk_in_tree(wd, shape, wd.root, dirs_of(path));
    match walk(wd, wd.root, dirs_of(path)) {
        Outcome::Done(p) => {
            lemma_in_dir(wd.streams, wd.width, wd.root, shape, p);
        },
        _ => {},
    }
}

/// Making a directory adds one entry, for an empty stream, to the directory above,
/// and changes nothing else, where that directory fits into memory.
pub proof fn law_dir_made<H>(wd: World<H>, path: Seq<u8>)
    requires
        handles_live(wd),
        1 <= wd.width <= 8,
        valid_utf8(path),
        made(wd, path, true, false) is Done,
        ({
            let p = walk(wd, wd.root, dirs_of(path))->Done_0;
            made(wd, path, true, false)->Done_0.1[p].data.len() <= usize::MAX
        }),
    ensures
        ({
            let (id, streams) = made(wd, path, true, false)->Done_0;
            let w1 = with_streams(wd, streams);
            let p = walk(wd, wd.root, dirs_of(path))->Done_0;
            let es = parsed(wd.streams[p].data, wd.width).unwrap();
            &&& read_dir(wd, p, OpenMode::Read) == DirState::Entries(es)
            &&& read_dir(w1, p, OpenMode::Read) == DirState::Entries(
                es.push(Entry { id, name: dir_name(leaf_of(path)) }),
            )
            &&& streams.dom() == wd.streams.dom().insert(id)
            &&& !wd.streams.contains_key(id)
            &&& streams[id].data.len() == 0
            &&& forall|i: u64| #[trigger]
                wd.streams.contains_key(i) && i != p ==> streams[i] == wd.streams[i]
        }),
{
    let (id, streams) = made(wd, path, true, false)->Done_0;
    lemma_made_adds(wd, path, true, false);
    assert(streams.insert(id, streams[id]) =~= streams);
    lemma_added_keeps(wd, path, true, false, streams[id]);
    let p = walk(wd, wd.root, dirs_of(path))->Done_0;
    assert(streams.dom() =~= wd.streams.dom().insert(id));
}

/// Entries of which none has a name stay as they are without that name.
proof fn lemma_without_none(es: Seq<Entry>, name: Seq<u8>)
    requires
        find(es, name) is None,
    ensures
        without(es, name) == es,
    decreases es.len(),
{
    lemma_found(es, name);
    if es.len() > 0 {
        let less = es.drop_last();
        assert(es[es.len() - 1].name != name);
        lemma_find_pushed(less, es.last(), name);
        assert(less.push(es.last()) =~= es);
        lemma_without_none(less, name);
        assert(without(es, name) =~= es);
    } else {
        assert(without(es, name) =~= es);
    }
}

/// A directory that was made can be removed, unless the directory above is too large
/// to be written anew, and every listing is then as it was, where the directory above
/// fits into memory.
pub proof fn law_dir_made_removed<H>(wd: World<H>, path: Seq<u8>)
    requires
        handles_live(wd),
        1 <= wd.width <= 8,
        valid_utf8(path),
        made(wd, path, true, false) is Done,
        ({
            let (id, s1) = made(wd, path, true, false)->Done_0;
            let p = walk(wd, wd.root, dirs_of(path))->Done_0;
            &&& s1[p].data.len() <= usize::MAX
            &&& dir_removed(with_streams(wd, s1), path) matches Outcome::Done(s2)
                ==> s2[p].data.len() <= usize::MAX
        }),
    ensures
        ({
            let (id, s1) = made(wd, path, true, false)->Done_0;
            match dir_removed(with_streams(wd, s1), path) {
                Outcome::Done(s2) => {
                    &&& s2.dom() == wd.streams.dom()
                    &&& forall|d: u64|
                        read_dir(wd, d, OpenMode::Read) is Entries ==> #[trigger] read_dir(
                            with_streams(wd, s2),
                            d,
                            OpenMode::Read,
                        ) == read_dir(wd, d, OpenMode::Read)
                    &&& forall|i: u64| #[trigger]
                        wd.streams.contains_key(i) && i != walk(wd, wd.root, dirs_of(path))->Done_0
                            ==> s2[i] == wd.streams[i]
                },
                Outcome::TooLarge => true,
                _ => false,
            }
        }),
{
    let (id, s1) = made(wd, path, true, false)->Done_0;
    let w1 = with_streams(wd, s1);
    let p = walk(wd, wd.root, dirs_of(path))->Done_0;
    let w = wd.width;
    lemma_made_adds(wd, path, true, false);
    assert(s1.insert(id, s1[id]) =~= s1);
    lemma_added_keeps(wd, path, true, false, s1[id]);
    lemma_way_to(wd, path, true, false, s1[id]);
    let es = parsed(wd.streams[p].data, w).unwrap();
    let name = dir_name(leaf_of(path));
    let e = Entry { id, name };
    let all = es.push(e);
    lemma_find_pushed(es, e, name);
    assert(read_dir(w1, p, OpenMode::Write) == DirState::Entries(all));
    assert(can_open(w1.handles, id, OpenMode::Read) && !is_open(w1.handles, id)) by {
        assert forall|h: H| #[trigger]
            w1.handles.contains_key(h) && w1.handles[h].stream == id implies false by {
            assert(wd.handles.contains_key(h));
        }
    }
    assert(dir_removed(w1, path) == dir_removed_in(w1, p, name));
    assert(dir_removed_in(w1, p, name) == unlinked(w1, p, all, name, id));
    match entries_set(w1, p, without(all, name)) {
        Outcome::Done(streams) => {
            assert(deleted(with_streams(w1, streams), id) == Outcome::Done(streams.remove(id)));
            lemma_unlinks(w1, p, all, name, id);
            lemma_without_none(es, name);
            assert(all.drop_last() =~= es);
            assert(without(all, name) == es);
            let s2 = streams.remove(id);
            let w2 = with_streams(wd, s2);
            assert(s2.dom() =~= wd.streams.dom());
            assert forall|d: u64|
                read_dir(wd, d, OpenMode::Read) is Entries implies #[trigger] read_dir(
                w2,
                d,
                OpenMode::Read,
            ) == read_dir(wd, d, OpenMode::Read) by {
                assert(wd.streams.contains_key(d));
                if d != p {
                    assert(s2[d] == wd.streams[d]);
                }
            }
            assert forall|i: u64| #[trigger] wd.streams.contains_key(i) && i != p implies s2[i]
                == wd.streams[i] by {}
        },
        _ => {},
    }
}

/// From `wd` to `streams`, entry `name` of the directory of `path` has gone, and the
/// stream that it stood for; nothing else has changed.
pub open spec fn only_unlisted<H>(
    wd: World<H>,
    streams: Map<u64, StreamState>,
    path: Seq<u8>,
    name: Seq<u8>,
) -> bool {
    let p = walk(wd, wd.root, dirs_of(path))->Done_0;
    let es = parsed(wd.streams[p].data, wd.width).unwrap();
    let id = find(es, name).unwrap();
    &&& find(es, name) is Some
    &&& read_dir(with_streams(wd, streams), p, OpenMode::Read) == DirState::Entries(
        without(es, name),
    )
    &&& streams.dom() == wd.streams.dom().remove(id)
    &&& forall|i: u64| #[trigger]
        streams.contains_key(i) && i != p ==> streams[i] == wd.streams[i]
}

/// Deleting a stream takes its name out of the directory that it stood in, and
/// changes no other stream, where that directory fits into memory.
pub proof fn law_stream_unlisted<H>(wd: World<H>, open: Set<u64>, path: Seq<u8>)
    requires
        sound(wd, open),
        valid_utf8(path),
        stream_removed(wd, open, path) is Done,
        ({
            let p = walk(wd, wd.root, dirs_of(path))->Done_0;
            stream_removed(wd, open, path)->Done_0[p].data.len() <= usize::MAX
        }),
    ensures
        only_unlisted(wd, stream_removed(wd, open, path)->Done_0, path, leaf_of(path)),
{
    let shape = choose|shape: Shape| #[trigger] sound_as(wd, open, shape);
    let streams = stream_removed(wd, open, path)->Done_0;
    let p = walk(wd, wd.root, dirs_of(path))->Done_0;
    lemma_rooted(wd.streams, wd.width, wd.root, shape);
    lemma_walk_in_tree(wd, shape, wd.root, dirs_of(path));
    lemma_leaf(path, false);
    lemma_in_dir(wd.streams, wd.width, wd.root, shape, p);
    let es = held_in(wd.streams, wd.width, p);
    let id = find(es, leaf_of(path)).unwrap();
    lemma_found(es, leaf_of(path));
    lemma_unlinks(wd, p, es, leaf_of(path), id);
    assert(streams.dom() =~= wd.streams.dom().remove(id));
}

/// Removing a directory takes its name out of the directory that it stood in, and
/// changes no other stream, where that directory fits into memory.
pub proof fn law_dir_unlisted<H>(wd: World<H>, open: Set<u64>, path: Seq<u8>)
    requires
        sound(wd, open),
        valid_utf8(path),
        dir_removed(wd, path) is Done,
        ({
            let p = walk(wd, wd.root, dirs_of(path))->Done_0;
            dir_removed(wd, path)->Done_0[p].data.len() <= usize::MAX
        }),
    ensures
        only_unlisted(wd, dir_removed(wd, path)->Done_0, path, dir_name(leaf_of(path))),
{
    let shape = choose|shape: Shape| #[trigger] sound_as(wd, open, shape);
    let streams = dir_removed(wd, path)->Done_0;
    let name = dir_name(leaf_of(path));
    let p = walk(wd, wd.root, dirs_of(path))->Done_0;
    lemma_rooted(wd.streams, wd.width, wd.root, shape);
    lemma_walk_in_tree(wd, shape, wd.root, dirs_of(path));
    lemma_leaf(path, true);
    lemma_in_dir(wd.streams, wd.width, wd.root, shape, p);
    let es = held_in(wd.streams, wd.width, p);
    let id = find(es, name).unwrap();
    lemma_found(es, name);
    lemma_unlinks(wd, p, es, name, id);
    assert(streams.dom() =~= wd.streams.dom().remove(id));
}

/// What is reached from below a directory stands below it.
proof fn lemma_walk_below<H>(wd: World<H>, shape: Shape, cur: u64, id: u64, names: Seq<Seq<u8>>)
    requires
        sound_as(wd, Set::empty(), shape),
        shape.dirs.contains(cur),
        below(wd.root, shape, cur, id),
        walk(wd, cur, names) is Done,
    ensures
        below(wd.root, shape, walk(wd, cur, names)->Done_0, id),
    decreases names.len(),
{
    if names.len() > 0 {
        lemma_in_dir(wd.streams, wd.width, wd.root, shape, cur);
        let es = held_in(wd.streams, wd.width, cur);
        let name = dir_name(names[0]);
        lemma_found(es, name);
        let next = find(es, name).unwrap();
        let i = choose|i: int|
            0 <= i < es.len() && (#[trigger] es[i]).name == name && es[i].id == next;
        assert(names_dir(es[i].name));
        assert(below(wd.root, shape, next, id));
        lemma_walk_below(wd, shape, next, id, names.skip(1));
    }
}

/// What a change leaves alone below directory `id`, a walk finds.
proof fn lemma_walk_inside<H>(
    wd: World<H>,
    w1: World<H>,
    shape: Shape,
    cur: u64,
    id: u64,
    names: Seq<Seq<u8>>,
)
    requires
        sound_as(wd, Set::empty(), shape),
        shape.dirs.contains(cur),
        below(wd.root, shape, cur, id),
        forall|d: u64|
            shape.dirs.contains(d) && below(wd.root, shape, d, id) ==> #[trigger] read_dir(
                w1,
                d,
                OpenMode::Read,
            ) == read_dir(wd, d, OpenMode::Read),
        walk(wd, cur, names) is Done,
    ensures
        walk(w1, cur, names) == walk(wd, cur, names),
    decreases names.len(),
{
    if names.len() > 0 {
        lemma_in_dir(wd.streams, wd.width, wd.root, shape, cur);
        let es = held_in(wd.streams, wd.width, cur);
        let name = dir_name(names[0]);
        lemma_found(es, name);
        assert(read_dir(w1, cur, OpenMode::Read) == read_dir(wd, cur, OpenMode::Read));
        let next = find(es, name).unwrap();
        let i = choose|i: int|
            0 <= i < es.len() && (#[trigger] es[i]).name == name && es[i].id == next;
        assert(names_dir(es[i].name));
        assert(below(wd.root, shape, next, id));
        lemma_walk_inside(wd, w1, shape, next, id, names.skip(1));
    }
}

/// A walk that does not end below directory `id` ends where it did, where every
/// directory leads where it led but for the way to `id`.
proof fn lemma_walk_aside<H>(
    wd: World<H>,
    w1: World<H>,
    shape: Shape,
    cur: u64,
    id: u64,
    names: Seq<Seq<u8>>,
)
    requires
        sound_as(wd, Set::empty(), shape),
        shape.dirs.contains(cur),
        forall|d: u64| shape.dirs.contains(d) ==> #[trigger] led_on(wd, w1, d, id),
        walk(wd, cur, names) is Done,
        !below(wd.root, shape, walk(wd, cur, names)->Done_0, id),
    ensures
        walk(w1, cur, names) == walk(wd, cur, names),
    decreases names.len(),
{
    if names.len() > 0 {
        lemma_in_dir(wd.streams, wd.width, wd.root, shape, cur);
        let es = held_in(wd.streams, wd.width, cur);
        let name = dir_name(names[0]);
        lemma_found(es, name);
        let next = find(es, name).unwrap();
        let i = choose|i: int|
            0 <= i < es.len() && (#[trigger] es[i]).name == name && es[i].id == next;
        assert(names_dir(es[i].name));
        if next == id {
            assert(below(wd.root, shape, next, id));
            lemma_walk_below(wd, shape, next, id, names.skip(1));
        }
        assert(led_on(wd, w1, cur, id));
        lemma_walk_aside(wd, w1, shape, next, id, names.skip(1));
    }
}

/// What was found in directory `d`, but for `id`, is found there still.
spec fn led_on<H>(w0: World<H>, w1: World<H>, d: u64, id: u64) -> bool {
    read_dir(w0, d, OpenMode::Read) matches DirState::Entries(e0) ==> {
        &&& read_dir(w1, d, OpenMode::Read) is Entries
        &&& forall|name: Seq<u8>|
            #![trigger find(e0, name)]
            find(e0, name) is Some && find(e0, name) != Some(id) ==> find(
                read_dir(w1, d, OpenMode::Read)->Entries_0,
                name,
            ) == find(e0, name)
    }
}

/// A directory that was renamed is reached by its new path, and from there all that
/// was reached from it before. Its name stands in the new directory and no more in
/// the old one; nothing else has changed. The directories must fit into memory.
pub proof fn law_dir_renamed<H>(
    wd: World<H>,
    open: Set<u64>,
    old_path: Seq<u8>,
    new_path: Seq<u8>,
    rest: Seq<Seq<u8>>,
)
    requires
        sound(wd, open),
        valid_utf8(old_path),
        valid_utf8(new_path),
        renamed(wd, open, old_path, new_path, true) is Done,
        walk(wd, wd.root, components(old_path) + rest) is Done,
        ({
            let streams = renamed(wd, open, old_path, new_path, true)->Done_0;
            let p = walk(wd, wd.root, dirs_of(old_path))->Done_0;
            let q = walk(wd, wd.root, dirs_of(new_path))->Done_0;
            streams[p].data.len() <= usize::MAX && streams[q].data.len() <= usize::MAX
        }),
    ensures
        ({
            let streams = renamed(wd, open, old_path, new_path, true)->Done_0;
            let w1 = with_streams(wd, streams);
            let p = walk(wd, wd.root, dirs_of(old_path))->Done_0;
            let q = walk(wd, wd.root, dirs_of(new_path))->Done_0;
            let es = parsed(wd.streams[p].data, wd.width).unwrap();
            let there = parsed(wd.streams[q].data, wd.width).unwrap();
            let left = without(es, dir_name(leaf_of(old_path)));
            let e = Entry {
                id: find(es, dir_name(leaf_of(old_path))).unwrap(),
                name: dir_name(leaf_of(new_path)),
            };
            &&& walk(w1, w1.root, components(new_path) + rest) == walk(
                wd,
                wd.root,
                components(old_path) + rest,
            )
            &&& p != q ==> {
                &&& read_dir(w1, p, OpenMode::Read) == DirState::Entries(left)
                &&& read_dir(w1, q, OpenMode::Read) == DirState::Entries(there.push(e))
            }
            &&& p == q ==> read_dir(w1, p, OpenMode::Read) == DirState::Entries(left.push(e))
            &&& streams.dom() == wd.streams.dom()
            &&& forall|i: u64| #[trigger]
                wd.streams.contains_key(i) && i != p && i != q ==> streams[i] == wd.streams[i]
        }),
{
    let shape = choose|shape: Shape| #[trigger] sound_as(wd, open, shape);
    assert(sound_as(wd, Set::empty(), shape));
    let w = wd.width;
    lemma_renames(wd, open, old_path, new_path, true);
    let streams = renamed(wd, open, old_path, new_path, true)->Done_0;
    let w1 = with_streams(wd, streams);
    let p = walk(wd, wd.root, dirs_of(old_path))->Done_0;
    let q = walk(wd, wd.root, dirs_of(new_path))->Done_0;
    let name = dir_name(leaf_of(old_path));
    lemma_rooted(wd.streams, w, wd.root, shape);
    lemma_walk_in_tree(wd, shape, wd.root, dirs_of(old_path));
    lemma_walk_in_tree(wd, shape, wd.root, dirs_of(new_path));
    lemma_leaf(old_path, true);
    lemma_leaf(new_path, true);
    lemma_in_dir(wd.streams, w, wd.root, shape, p);
    lemma_in_dir(wd.streams, w, wd.root, shape, q);
    let es = held_in(wd.streams, w, p);
    let there = held_in(wd.streams, w, q);
    let id = find(es, name).unwrap();
    let e = Entry { id, name: dir_name(leaf_of(new_path)) };
    let left = without(es, name);
    lemma_found(es, name);
    assert(shape.dirs.contains(id) && id != wd.root);
    assert(streams.dom() =~= wd.streams.dom());
    assert(sound(wd, Set::empty()));
    lemma_not_below(wd, Set::empty(), shape, old_path, dirs_of(new_path), true, id);
    if below(wd.root, shape, p, id) {
        lemma_below_rank(wd.root, shape, p, id);
    }
    assert forall|d: u64|
        shape.dirs.contains(d) && below(wd.root, shape, d, id) implies #[trigger] read_dir(
        w1,
        d,
        OpenMode::Read,
    ) == read_dir(wd, d, OpenMode::Read) by {
        assert(d != p && d != q);
        lemma_in_dir(wd.streams, w, wd.root, shape, d);
        assert(wd.streams.contains_key(d));
        assert(streams[d] == wd.streams[d]);
    }
    assert forall|d: u64| shape.dirs.contains(d) implies #[trigger] led_on(wd, w1, d, id) by {
        lemma_in_dir(wd.streams, w, wd.root, shape, d);
        if read_dir(wd, d, OpenMode::Read) is Entries {
            let e0 = held_in(wd.streams, w, d);
            if d != p && d != q {
                assert(streams[d] == wd.streams[d]);
            }
            assert forall|n: Seq<u8>|
                #![trigger find(e0, n)]
                find(e0, n) is Some && find(e0, n) != Some(id) implies find(
                read_dir(w1, d, OpenMode::Read)->Entries_0,
                n,
            ) == find(e0, n) by {
                law_others_stay(es, name, n);
                lemma_find_pushed(left, e, n);
                lemma_find_pushed(there, e, n);
            }
        }
    }
    lemma_walk_aside(wd, w1, shape, wd.root, id, dirs_of(new_path));
    // One step more leads to the directory itself.
    let leaf = leaf_of(new_path);
    lemma_components(new_path);
    lemma_components(old_path);
    law_others_stay(es, name, e.name);
    lemma_find_pushed(left, e, e.name);
    lemma_find_pushed(there, e, e.name);
    lemma_walk_push(w1, w1.root, dirs_of(new_path), leaf);
    lemma_walk_push(wd, wd.root, dirs_of(old_path), leaf_of(old_path));
    assert(components(new_path) =~= dirs_of(new_path).push(leaf));
    assert(components(old_path) =~= dirs_of(old_path).push(leaf_of(old_path)));
    let one = seq![leaf];
    let other = seq![leaf_of(old_path)];
    assert(one[0] == leaf && other[0] == leaf_of(old_path));
    assert(one.skip(1) =~= Seq::<Seq<u8>>::empty());
    assert(other.skip(1) =~= Seq::<Seq<u8>>::empty());
    reveal_with_fuel(walk, 2);
    assert(walk(w1, w1.root, components(new_path)) == Outcome::Done(id));
    lemma_walk_on(w1, w1.root, components(new_path), rest);
    lemma_walk_prefix(wd, wd.root, components(old_path), rest);
    lemma_walk_on(wd, wd.root, components(old_path), rest);
    assert(walk(wd, wd.root, components(old_path)) == Outcome::Done(id));
    assert(below(wd.root, shape, id, id));
    lemma_walk_inside(wd, w1, shape, id, id, rest);
}

/// A walk, and a walk on from where it ended.
proof fn lemma_walk_on<H>(wd: World<H>, cur: u64, names: Seq<Seq<u8>>, rest: Seq<Seq<u8>>)
    requires
        walk(wd, cur, names) is Done,
    ensures
        walk(wd, cur, names + rest) == walk(wd, walk(wd, cur, names)->Done_0, rest),
    decreases names.len(),
{
    let all = names + rest;
    if names.len() == 0 {
        assert(all =~= rest);
    } else {
        assert(all[0] == names[0]);
        assert(all.skip(1) =~= names.skip(1) + rest);
        match read_dir(wd, cur, OpenMode::Read) {
            DirState::Entries(es) => {
                let id = find(es, dir_name(names[0])).unwrap();
                lemma_walk_on(wd, id, names.skip(1), rest);
            },
            _ => {},
        }
    }
}

/// A walk that ends well ends well on its way.
proof fn lemma_walk_prefix<H>(wd: World<H>, cur: u64, names: Seq<Seq<u8>>, rest: Seq<Seq<u8>>)
    requires
        walk(wd, cur, names + rest) is Done,
    ensures
        walk(wd, cur, names) is Done,
    decreases names.len(),
{
    let all = names + rest;
    if names.len() > 0 {
        assert(all[0] == names[0]);
        assert(all.skip(1) =~= names.skip(1) + rest);
        match read_dir(wd, cur, OpenMode::Read) {
            DirState::Entries(es) => {
                let id = find(es, dir_name(names[0])).unwrap();
                lemma_walk_prefix(wd, id, names.skip(1), rest);
            },
            _ => {},
        }
    }
}

} // verus!
