//! The directories as a tree: every stream but the root stands in one directory,
//! once. What the calls of the file system do keeps it so.

use crate::block_layer::sentinel;
use crate::dir_entries::{
    entry_bytes, entry_fits, find, law_entries_round_trip, law_entry_appended, law_others_stay,
    lemma_parsed_fits, parsed, without, Entry,
};
use crate::names::{
    bare, components, dir_name, dirs_of, leaf_of, lemma_components, lemma_utf8_joined,
    lemma_utf8_slash, names_dir, valid_path, MAX_NAME_LEN, SLASH,
};
use crate::sfs::new_world;
use crate::sfs_model::{
    dir_removed, entries_set, entry_name, handles_live, law_making_spares_open, made, read_dir,
    renamed, stream_found, stream_removed, unlinked, walk, with_streams, DirState, Outcome, World,
};
use crate::stream_layer::{can_open, empty_stream, first_unused, StreamState};
use crate::tree_check::{
    claim_ids, claims_in, entries_of, gathered, root_claim, tree_names, Claim,
};
use crate::types::OpenMode;
use vstd::prelude::*;
use vstd::utf8::valid_utf8;

verus! {

/// A way to see the streams as a tree.
pub ghost struct Shape {
    /// The directories.
    pub dirs: Set<u64>,
    /// The directory that a stream stands in.
    pub home: Map<u64, u64>,
    /// A number that grows on the way down.
    pub rank: Map<u64, nat>,
}

/// The entries of directory `d` are in order.
pub open spec fn dir_shaped(
    streams: Map<u64, StreamState>,
    root: u64,
    shape: Shape,
    d: u64,
    es: Seq<Entry>,
) -> bool {
    &&& forall|i: int|
        0 <= i < es.len() ==> {
            let e = #[trigger] es[i];
            &&& streams.contains_key(e.id)
            &&& e.id != root
            &&& shape.home[e.id] == d
            &&& shape.dirs.contains(e.id) == names_dir(e.name)
            &&& shape.rank[d] < shape.rank[e.id]
        }
    &&& forall|i: int, j: int|
        0 <= i < j < es.len() ==> (#[trigger] es[i]).id != (#[trigger] es[j]).id && bare(
            es[i].name,
        ) != bare(es[j].name)
}

/// Some entry is that of stream `id`.
pub open spec fn lists(es: Seq<Entry>, id: u64) -> bool {
    exists|i: int| 0 <= i < es.len() && (#[trigger] es[i]).id == id
}

/// The entries of a directory.
pub open spec fn held_in(streams: Map<u64, StreamState>, w: nat, d: u64) -> Seq<Entry> {
    entries_of(streams, d, w).unwrap()
}

/// The streams are a tree of this shape.
#[verifier::opaque]
pub open spec fn shaped(streams: Map<u64, StreamState>, w: nat, root: u64, shape: Shape) -> bool {
    &&& shape.dirs.contains(root)
    &&& forall|d: u64| #[trigger]
        shape.dirs.contains(d) ==> entries_of(streams, d, w) is Some && dir_shaped(
            streams,
            root,
            shape,
            d,
            held_in(streams, w, d),
        )
    &&& forall|id: u64| #[trigger]
        streams.contains_key(id) && id != root ==> shape.dirs.contains(shape.home[id]) && lists(
            held_in(streams, w, shape.home[id]),
            id,
        )
}

/// The streams are a tree, and none of those that are open is a directory.
pub open spec fn sound<H>(wd: World<H>, open: Set<u64>) -> bool {
    exists|shape: Shape| #[trigger] sound_as(wd, open, shape)
}

pub open spec fn sound_as<H>(wd: World<H>, open: Set<u64>, shape: Shape) -> bool {
    &&& shaped(wd.streams, wd.width, wd.root, shape)
    &&& forall|id: u64| #[trigger]
        open.contains(id) ==> wd.streams.contains_key(id) && !shape.dirs.contains(id)
    &&& 1 <= wd.width <= 8
}

/// What is found is an entry of that name.
pub proof fn lemma_found(es: Seq<Entry>, name: Seq<u8>)
    ensures
        match find(es, name) {
            Some(id) => exists|i: int|
                0 <= i < es.len() && (#[trigger] es[i]).name == name && es[i].id == id,
            None => forall|i: int| 0 <= i < es.len() ==> (#[trigger] es[i]).name != name,
        },
    decreases es.len(),
{
    if es.len() > 0 {
        let rest = es.skip(1);
        lemma_found(rest, name);
        if es[0].name == name {
        } else {
            match find(rest, name) {
                Some(id) => {
                    let i = choose|i: int|
                        0 <= i < rest.len() && (#[trigger] rest[i]).name == name && rest[i].id == id;
                    assert(es[i + 1] == rest[i]);
                },
                None => {
                    assert forall|i: int| 0 <= i < es.len() implies (#[trigger] es[i]).name
                        != name by {
                        if i > 0 {
                            assert(rest[i - 1] == es[i]);
                        }
                    }
                },
            }
        }
    }
}

/// Where neither a stream nor a directory of a name is found, no entry has that
/// name but for a slash.
proof fn lemma_bare(es: Seq<Entry>, leaf: Seq<u8>, dir: bool)
    requires
        find(es, leaf) is None,
        find(es, dir_name(leaf)) is None,
        names_dir(entry_name(leaf, dir)) == dir,
    ensures
        bare(entry_name(leaf, dir)) == leaf,
        forall|i: int|
            0 <= i < es.len() ==> bare((#[trigger] es[i]).name) != bare(entry_name(leaf, dir)),
{
    lemma_found(es, leaf);
    lemma_found(es, dir_name(leaf));
    assert(dir_name(leaf).drop_last() =~= leaf);
    assert forall|i: int| 0 <= i < es.len() implies bare((#[trigger] es[i]).name) != leaf by {
        let name = es[i].name;
        if names_dir(name) && name.drop_last() == leaf {
            assert(name =~= dir_name(leaf));
        }
    }
}

/// A walk through a tree ends in one of its directories.
pub proof fn lemma_walk_in_tree<H>(
    wd: World<H>,
    shape: Shape,
    cur: u64,
    names: Seq<Seq<u8>>,
)
    requires
        shaped(wd.streams, wd.width, wd.root, shape),
        shape.dirs.contains(cur),
    ensures
        walk(wd, cur, names) matches Outcome::Done(d) ==> shape.dirs.contains(d),
    decreases names.len(),
{
    reveal(shaped);
    if names.len() > 0 {
        match read_dir(wd, cur, OpenMode::Read) {
            DirState::Entries(es) => {
                assert(es == held_in(wd.streams, wd.width, cur));
                let name = dir_name(names[0]);
                lemma_found(es, name);
                match find(es, name) {
                    Some(id) => {
                        let i = choose|i: int|
                            0 <= i < es.len() && (#[trigger] es[i]).name == name && es[i].id == id;
                        assert(names_dir(es[i].name));
                        lemma_walk_in_tree(wd, shape, id, names.skip(1));
                    },
                    None => {},
                }
            },
            _ => {},
        }
    }
}

/// The last part of a path that is text can be the name of an entry where it is
/// short enough, and is no name of a directory.
pub proof fn lemma_leaf(path: Seq<u8>, dir: bool)
    requires
        valid_utf8(path),
    ensures
        valid_utf8(entry_name(leaf_of(path), dir)),
        names_dir(entry_name(leaf_of(path), dir)) == dir,
        valid_path(path) ==> entry_name(leaf_of(path), dir).len() <= MAX_NAME_LEN + 1,
{
    lemma_components(path);
    let leaf = leaf_of(path);
    let parts = crate::names::components(path);
    assert(leaf == parts[parts.len() - 1]);
    assert(valid_utf8(leaf) && !leaf.contains(SLASH));
    if dir {
        lemma_utf8_slash();
        lemma_utf8_joined(leaf, seq![SLASH]);
        assert(dir_name(leaf) =~= leaf + seq![SLASH]);
    } else if leaf.len() > 0 {
        if leaf.last() == SLASH {
            assert(leaf[leaf.len() - 1] == SLASH);
        }
    }
}

// ---------------------------------------------------------------------------
// A tree is intact
// ---------------------------------------------------------------------------

/// The claims that a walk through the tree has found: no stream twice, every one
/// in the tree, and all that stands in the directories before number `i`.
spec fn walked(
    streams: Map<u64, StreamState>,
    w: nat,
    root: u64,
    shape: Shape,
    list: Seq<Claim>,
    i: nat,
) -> bool {
    &&& i <= list.len()
    &&& list.len() > 0
    &&& list[0] == (Claim { id: root, dir: true })
    &&& claim_ids(list).no_duplicates()
    &&& forall|k: int|
        0 <= k < list.len() ==> streams.contains_key((#[trigger] list[k]).id) && list[k].dir
            == shape.dirs.contains(list[k].id)
    &&& forall|k: int|
        1 <= k < list.len() ==> exists|p: int|
            0 <= p < i && list[p].id == shape.home[(#[trigger] list[k]).id]
                && #[trigger] list[p].dir
    &&& forall|p: int, id: u64|
        0 <= p < i && streams.contains_key(id) && id != root && shape.home[id] == (
        #[trigger] list[p]).id ==> #[trigger] claim_ids(list).contains(id)
}

proof fn lemma_walk_on(
    streams: Map<u64, StreamState>,
    w: nat,
    root: u64,
    shape: Shape,
    list: Seq<Claim>,
    i: nat,
)
    requires
        shaped(streams, w, root, shape),
        streams.contains_key(root),
        walked(streams, w, root, shape, list, i),
        i < list.len(),
    ensures
        list[i as int].dir ==> entries_of(streams, list[i as int].id, w) is Some && walked(
            streams,
            w,
            root,
            shape,
            list + claims_in(held_in(streams, w, list[i as int].id)),
            i + 1,
        ),
        !list[i as int].dir ==> walked(streams, w, root, shape, list, i + 1),
{
    reveal(shaped);
    let d = list[i as int].id;
    let ids = claim_ids(list);
    if list[i as int].dir {
        let es = held_in(streams, w, d);
        assert(shape.dirs.contains(d));
        assert(dir_shaped(streams, root, shape, d, es));
        let next = list + claims_in(es);
        let n = list.len() as int;
        assert forall|k: int| 0 <= k < next.len() implies streams.contains_key(
            (#[trigger] next[k]).id,
        ) && next[k].dir == shape.dirs.contains(next[k].id) by {
            if k < n {
                assert(next[k] == list[k]);
            } else {
                assert(next[k].id == es[k - n].id);
            }
        }
        // No stream of the directory was found before.
        assert forall|k: int, j: int| 0 <= k < n && 0 <= j < es.len() implies (
        #[trigger] list[k]).id != (#[trigger] es[j]).id by {
            if list[k].id == es[j].id {
                if k == 0 {
                    assert(es[j].id == root);
                } else {
                    let p = choose|p: int|
                        0 <= p < i && list[p].id == shape.home[list[k].id] && #[trigger] list[p].dir;
                    assert(list[p].id == d);
                    assert(ids[p] == ids[i as int]);
                }
            }
        }
        let next_ids = claim_ids(next);
        assert forall|k: int, j: int| 0 <= k < j < next_ids.len() implies next_ids[k]
            != next_ids[j] by {
            if j < n {
                assert(ids[k] != ids[j]);
            } else if k < n {
                assert(next[k] == list[k]);
                assert(next[j].id == es[j - n].id);
            } else {
                assert(next[k].id == es[k - n].id);
                assert(next[j].id == es[j - n].id);
            }
        }
        assert(next_ids.no_duplicates());
        assert forall|k: int| 1 <= k < next.len() implies exists|p: int|
            0 <= p < i + 1 && next[p].id == shape.home[(#[trigger] next[k]).id]
                && #[trigger] next[p].dir by {
            if k < n {
                assert(next[k] == list[k]);
                let p = choose|p: int|
                    0 <= p < i && list[p].id == shape.home[list[k].id] && #[trigger] list[p].dir;
                assert(next[p] == list[p]);
            } else {
                assert(next[k].id == es[k - n].id);
                assert(next[i as int] == list[i as int]);
                assert(next[i as int].dir);
            }
        }
        assert forall|p: int, id: u64|
            0 <= p < i + 1 && streams.contains_key(id) && id != root && shape.home[id] == (
            #[trigger] next[p]).id implies #[trigger] next_ids.contains(id) by {
            assert(next[p] == list[p]);
            if p < i {
                assert(ids.contains(id));
                let k = choose|k: int| 0 <= k < ids.len() && ids[k] == id;
                assert(next_ids[k] == id);
            } else {
                assert(lists(es, id));
                let j = choose|j: int| 0 <= j < es.len() && (#[trigger] es[j]).id == id;
                assert(next_ids[n + j] == id);
            }
        }
        assert(next[0] == list[0]);
    } else {
        assert forall|k: int| 1 <= k < list.len() implies exists|p: int|
            0 <= p < i + 1 && list[p].id == shape.home[(#[trigger] list[k]).id]
                && #[trigger] list[p].dir by {
            let p = choose|p: int|
                0 <= p < i && list[p].id == shape.home[list[k].id] && #[trigger] list[p].dir;
            assert(list[p].dir);
        }
        assert forall|p: int, id: u64|
            0 <= p < i + 1 && streams.contains_key(id) && id != root && shape.home[id] == (
            #[trigger] list[p]).id implies #[trigger] ids.contains(id) by {
            if p == i {
                assert(shape.dirs.contains(shape.home[id]));
            }
        }
    }
}

proof fn lemma_ids_few(streams: Map<u64, StreamState>, list: Seq<Claim>)
    requires
        streams.dom().finite(),
        claim_ids(list).no_duplicates(),
        forall|k: int| 0 <= k < list.len() ==> streams.contains_key((#[trigger] list[k]).id),
    ensures
        list.len() <= streams.dom().len(),
{
    let ids = claim_ids(list);
    ids.unique_seq_to_set();
    assert forall|id: u64| ids.to_set().contains(id) implies streams.dom().contains(id) by {
        let k = choose|k: int| 0 <= k < ids.len() && ids[k] == id;
        assert(list[k].id == id);
    }
    vstd::set_lib::lemma_len_subset(ids.to_set(), streams.dom());
}

proof fn lemma_gathers(
    streams: Map<u64, StreamState>,
    w: nat,
    root: u64,
    shape: Shape,
    list: Seq<Claim>,
    i: nat,
    fuel: nat,
)
    requires
        shaped(streams, w, root, shape),
        streams.contains_key(root),
        streams.dom().finite(),
        walked(streams, w, root, shape, list, i),
        fuel + i >= streams.dom().len(),
    ensures
        gathered(streams, w, list, i, fuel) is Some,
        ({
            let all = gathered(streams, w, list, i, fuel).unwrap();
            walked(streams, w, root, shape, all, all.len())
        }),
    decreases fuel,
{
    lemma_ids_few(streams, list);
    if i < list.len() {
        lemma_walk_on(streams, w, root, shape, list, i);
        if list[i as int].dir {
            let es = held_in(streams, w, list[i as int].id);
            lemma_gathers(
                streams,
                w,
                root,
                shape,
                list + claims_in(es),
                i + 1,
                (fuel - 1) as nat,
            );
        } else {
            lemma_gathers(streams, w, root, shape, list, i + 1, (fuel - 1) as nat);
        }
    }
}

proof fn lemma_all_walked(
    streams: Map<u64, StreamState>,
    w: nat,
    root: u64,
    shape: Shape,
    all: Seq<Claim>,
    id: u64,
)
    requires
        shaped(streams, w, root, shape),
        walked(streams, w, root, shape, all, all.len()),
        streams.contains_key(id),
    ensures
        claim_ids(all).contains(id),
    decreases shape.rank[id],
{
    reveal(shaped);
    if id == root {
        assert(claim_ids(all)[0] == root);
    } else {
        let d = shape.home[id];
        assert(shape.dirs.contains(d));
        let es = held_in(streams, w, d);
        let i = choose|i: int| 0 <= i < es.len() && (#[trigger] es[i]).id == id;
        assert(shape.rank[d] < shape.rank[es[i].id]);
        lemma_all_walked(streams, w, root, shape, all, d);
        let p = choose|p: int| 0 <= p < claim_ids(all).len() && claim_ids(all)[p] == d;
        assert(all[p].id == d);
    }
}

/// The directories of a tree name every stream once, and no other.
pub proof fn law_tree_named<H>(wd: World<H>, open: Set<u64>)
    requires
        sound(wd, open),
        wd.streams.dom().finite(),
    ensures
        exists|ids: Seq<u64>| #[trigger]
            tree_names(wd.streams, wd.width, wd.root, ids) && ids.to_set() == wd.streams.dom(),
{
    reveal(shaped);
    let shape = choose|shape: Shape| #[trigger] sound_as(wd, open, shape);
    let (streams, w, root) = (wd.streams, wd.width, wd.root);
    let init = root_claim(root);
    assert(shape.dirs.contains(root));
    assert(entries_of(streams, root, w) is Some);
    assert(streams.contains_key(root));
    assert(claim_ids(init).no_duplicates());
    assert(walked(streams, w, root, shape, init, 0));
    let fuel = streams.dom().len();
    lemma_gathers(streams, w, root, shape, init, 0, fuel);
    let all = gathered(streams, w, init, 0, fuel).unwrap();
    let ids = claim_ids(all);
    assert(tree_names(streams, w, root, ids));
    assert forall|id: u64| ids.to_set().contains(id) <==> streams.dom().contains(id) by {
        if ids.contains(id) {
            let k = choose|k: int| 0 <= k < ids.len() && ids[k] == id;
            assert(streams.contains_key(all[k].id));
        }
        if streams.contains_key(id) {
            lemma_all_walked(streams, w, root, shape, all, id);
        }
    }
    assert(ids.to_set() =~= streams.dom());
}

// ---------------------------------------------------------------------------
// A tree stays a tree
// ---------------------------------------------------------------------------

/// A file system that holds nothing but its root directory is a tree.
pub proof fn law_new_sound<H>(width: u8, shift: u8, vbss: u8)
    requires
        1 <= width <= 8,
    ensures
        sound(new_world::<H>(width, shift, vbss), Set::empty()),
{
    reveal(shaped);
    let wd = new_world::<H>(width, shift, vbss);
    let shape = Shape {
        dirs: set![0u64],
        home: Map::empty(),
        rank: Map::empty(),
    };
    assert(entries_of(wd.streams, 0, wd.width) == Some(Seq::<Entry>::empty()));
    assert(sound_as(wd, Set::empty(), shape));
}

/// A change to a stream that is open keeps the tree.
pub proof fn law_written_sound<H>(wd: World<H>, open: Set<u64>, id: u64, s: StreamState)
    requires
        sound(wd, open),
        open.contains(id),
        wd.streams.contains_key(id),
    ensures
        sound(with_streams(wd, wd.streams.insert(id, s)), open),
{
    reveal(shaped);
    let shape = choose|shape: Shape| #[trigger] sound_as(wd, open, shape);
    let w1 = with_streams(wd, wd.streams.insert(id, s));
    assert forall|d: u64| #[trigger] shape.dirs.contains(d) implies entries_of(
        w1.streams,
        d,
        wd.width,
    ) == entries_of(wd.streams, d, wd.width) by {
        assert(d != id);
    }
    assert forall|d: u64| #[trigger] shape.dirs.contains(d) implies dir_shaped(
        w1.streams,
        wd.root,
        shape,
        d,
        held_in(w1.streams, wd.width, d),
    ) by {
        assert(dir_shaped(wd.streams, wd.root, shape, d, held_in(wd.streams, wd.width, d)));
    }
    assert(sound_as(w1, open, shape));
}

/// Fewer open streams do no harm.
pub proof fn law_closed_sound<H>(wd: World<H>, open: Set<u64>, id: u64)
    requires
        sound(wd, open),
    ensures
        sound(wd, open.remove(id)),
{
    let shape = choose|shape: Shape| #[trigger] sound_as(wd, open, shape);
    assert(sound_as(wd, open.remove(id), shape));
}

/// A stream that is found is no directory, so it may be opened.
pub proof fn law_opened_sound<H>(wd: World<H>, open: Set<u64>, path: Seq<u8>, mode: OpenMode)
    requires
        sound(wd, open),
        valid_utf8(path),
    ensures
        stream_found(wd, path, mode) matches Outcome::Done(id) ==> sound(wd, open.insert(id)),
{
    let shape = choose|shape: Shape| #[trigger] sound_as(wd, open, shape);
    match stream_found(wd, path, mode) {
        Outcome::Done(id) => {
            let parent = walk(wd, wd.root, dirs_of(path))->Done_0;
            lemma_rooted(wd.streams, wd.width, wd.root, shape);
            lemma_walk_in_tree(wd, shape, wd.root, dirs_of(path));
            lemma_leaf(path, false);
            lemma_in_dir(wd.streams, wd.width, wd.root, shape, parent);
            let es = held_in(wd.streams, wd.width, parent);
            lemma_found(es, leaf_of(path));
            assert(!shape.dirs.contains(id));
            assert(sound_as(wd, open.insert(id), shape));
        },
        _ => {},
    }
}

/// Making a stream or a directory keeps the tree.
pub proof fn law_made_sound<H>(
    wd: World<H>,
    open: Set<u64>,
    path: Seq<u8>,
    dir: bool,
    packed: bool,
)
    requires
        sound(wd, open),
        handles_live(wd),
        valid_utf8(path),
        dir ==> !packed,
    ensures
        made(wd, path, dir, packed) matches Outcome::Done(done) ==> sound(
            with_streams(wd, done.1),
            if dir {
                open
            } else {
                open.insert(done.0)
            },
        ),
{
    let shape = choose|shape: Shape| #[trigger] sound_as(wd, open, shape);
    match made(wd, path, dir, packed) {
        Outcome::Done(done) => {
            let (id, streams) = done;
            let p = walk(wd, wd.root, dirs_of(path))->Done_0;
            let e = Entry { id, name: entry_name(leaf_of(path), dir) };
            lemma_made_adds(wd, path, dir, packed);
            lemma_rooted(wd.streams, wd.width, wd.root, shape);
            lemma_walk_in_tree(wd, shape, wd.root, dirs_of(path));
            lemma_leaf(path, dir);
            lemma_in_dir(wd.streams, wd.width, wd.root, shape, p);
            let es = held_in(wd.streams, wd.width, p);
            lemma_bare(es, leaf_of(path), dir);
            crate::bytes::lemma_pow256_monotone(0, wd.width);
            law_entry_appended(wd.streams[p].data, e, wd.width);
            let w1 = with_streams(wd, streams);
            let shape1 = with_child(shape, p, id, dir);
            if dir {
                assert(entries_of(streams, id, wd.width) == Some(Seq::<Entry>::empty()));
            }
            lemma_child_added(wd.streams, streams, wd.width, wd.root, shape, p, e, dir);
            let open1 = if dir {
                open
            } else {
                open.insert(id)
            };
            assert forall|o: u64| #[trigger] open1.contains(o) implies streams.contains_key(o)
                && !shape1.dirs.contains(o) by {
                if o != id {
                    assert(open.contains(o));
                } else if dir {
                    assert(open.contains(id));
                } else {
                    if shape.dirs.contains(id) {
                        lemma_in_dir(wd.streams, wd.width, wd.root, shape, id);
                    }
                }
            }
            assert(sound_as(w1, open1, shape1));
        },
        _ => {},
    }
}

pub proof fn lemma_rooted(streams: Map<u64, StreamState>, w: nat, root: u64, shape: Shape)
    requires
        shaped(streams, w, root, shape),
    ensures
        shape.dirs.contains(root),
{
    reveal(shaped);
}

pub proof fn lemma_in_dir(
    streams: Map<u64, StreamState>,
    w: nat,
    root: u64,
    shape: Shape,
    d: u64,
)
    requires
        shaped(streams, w, root, shape),
        shape.dirs.contains(d),
    ensures
        streams.contains_key(d),
        !streams[d].compressed,
        parsed(streams[d].data, w) == Some(held_in(streams, w, d)),
        entries_of(streams, d, w) is Some,
        dir_shaped(streams, root, shape, d, held_in(streams, w, d)),
{
    reveal(shaped);
}

/// The shape with one more stream in directory `p`.
spec fn with_child(shape: Shape, p: u64, id: u64, dir: bool) -> Shape {
    Shape {
        dirs: if dir {
            shape.dirs.insert(id)
        } else {
            shape.dirs
        },
        home: shape.home.insert(id, p),
        rank: shape.rank.insert(id, shape.rank[p] + 1),
    }
}

proof fn lemma_child_added(
    s0: Map<u64, StreamState>,
    s1: Map<u64, StreamState>,
    w: nat,
    root: u64,
    shape: Shape,
    p: u64,
    e: Entry,
    dir: bool,
)
    requires
        shaped(s0, w, root, shape),
        shape.dirs.contains(p),
        !s0.contains_key(e.id),
        s1 == s0.insert(e.id, s1[e.id]).insert(p, s1[p]),
        entries_of(s1, p, w) == Some(held_in(s0, w, p).push(e)),
        names_dir(e.name) == dir,
        dir ==> entries_of(s1, e.id, w) == Some(Seq::<Entry>::empty()),
        forall|i: int|
            0 <= i < held_in(s0, w, p).len() ==> bare((#[trigger] held_in(s0, w, p)[i]).name)
                != bare(e.name),
    ensures
        shaped(s1, w, root, with_child(shape, p, e.id, dir)),
{
    reveal(shaped);
    let id = e.id;
    let es = held_in(s0, w, p);
    let es1 = es.push(e);
    let shape1 = with_child(shape, p, id, dir);
    assert(!shape.dirs.contains(id)) by {
        if shape.dirs.contains(id) {
            assert(entries_of(s0, id, w) is Some);
        }
    }
    assert(shape.dirs.contains(root));
    assert forall|d: u64| #[trigger] shape1.dirs.contains(d) implies entries_of(s1, d, w) is Some
        && dir_shaped(s1, root, shape1, d, held_in(s1, w, d)) by {
        if d != id {
            assert(shape.dirs.contains(d));
            let old_es = held_in(s0, w, d);
            assert(dir_shaped(s0, root, shape, d, old_es));
            assert forall|i: int| 0 <= i < old_es.len() implies (#[trigger] old_es[i]).id
                != id by {}
            if d == p {
                assert(held_in(s1, w, d) == es1);
                assert forall|i: int| 0 <= i < es1.len() implies ({
                    let x = #[trigger] es1[i];
                    &&& s1.contains_key(x.id)
                    &&& x.id != root
                    &&& shape1.home[x.id] == d
                    &&& shape1.dirs.contains(x.id) == names_dir(x.name)
                    &&& shape1.rank[d] < shape1.rank[x.id]
                }) by {
                    if i < es.len() {
                        assert(es1[i] == es[i]);
                    }
                }
                assert forall|i: int, j: int| 0 <= i < j < es1.len() implies (
                #[trigger] es1[i]).id != (#[trigger] es1[j]).id && bare(es1[i].name) != bare(es1[j].name) by {
                    assert(es1[i] == es[i]);
                    if j < es.len() {
                        assert(es1[j] == es[j]);
                    }
                }
            } else {
                assert(s1[d] == s0[d]);
                assert(held_in(s1, w, d) == old_es);
            }
        }
    }
    assert forall|x: u64| #[trigger] s1.contains_key(x) && x != root implies shape1.dirs.contains(
        shape1.home[x],
    ) && lists(held_in(s1, w, shape1.home[x]), x) by {
        if x == id {
            assert(es1[es1.len() - 1].id == id);
        } else {
            assert(s0.contains_key(x));
            let d = shape.home[x];
            assert(shape.dirs.contains(d));
            let old_es = held_in(s0, w, d);
            let i = choose|i: int| 0 <= i < old_es.len() && (#[trigger] old_es[i]).id == x;
            if d == p {
                assert(es1[i].id == x);
            } else {
                assert(s1[d] == s0[d]);
                assert(held_in(s1, w, d)[i].id == x);
            }
        }
    }
}

/// What making a stream does: it adds an entry to the directory, and an empty
/// stream under a number that was free.
pub proof fn lemma_made_adds<H>(wd: World<H>, path: Seq<u8>, dir: bool, packed: bool)
    requires
        handles_live(wd),
        1 <= wd.width <= 8,
        made(wd, path, dir, packed) is Done,
    ensures
        walk(wd, wd.root, dirs_of(path)) is Done,
        ({
            let (id, streams) = made(wd, path, dir, packed)->Done_0;
            let p = walk(wd, wd.root, dirs_of(path))->Done_0;
            let leaf = leaf_of(path);
            let e = Entry { id, name: entry_name(leaf, dir) };
            let data = wd.streams[p].data;
            &&& wd.streams.contains_key(p)
            &&& !wd.streams.contains_key(id)
            &&& id < sentinel(wd.width)
            &&& can_open(wd.handles, p, OpenMode::Write)
            &&& data.len() <= usize::MAX
            &&& parsed(data, wd.width) is Some
            &&& find(parsed(data, wd.width).unwrap(), leaf) is None
            &&& find(parsed(data, wd.width).unwrap(), dir_name(leaf)) is None
            &&& streams == wd.streams.insert(id, empty_stream(packed)).insert(p, streams[p])
            &&& streams[p].data == data + entry_bytes(e, wd.width)
            &&& streams[p].compressed == wd.streams[p].compressed
        }),
{
    law_making_spares_open(wd, path, dir, packed);
    let (id, streams) = made(wd, path, dir, packed)->Done_0;
    let p = walk(wd, wd.root, dirs_of(path))->Done_0;
    let limit = sentinel(wd.width);
    let some = choose|j: u64| j < limit && !#[trigger] wd.streams.contains_key(j);
    crate::sfs_model::lemma_some_unused(wd.streams, limit);
    assert(first_unused(wd.streams, id));
    if id > some {
        assert(wd.streams.contains_key(some));
    }
}

/// The entries of a directory are in order without those of a name too.
proof fn lemma_dir_without(
    streams: Map<u64, StreamState>,
    root: u64,
    shape: Shape,
    d: u64,
    es: Seq<Entry>,
    name: Seq<u8>,
)
    requires
        dir_shaped(streams, root, shape, d, es),
    ensures
        dir_shaped(streams, root, shape, d, without(es, name)),
        forall|i: int|
            0 <= i < es.len() && (#[trigger] es[i]).name != name ==> without(es, name).contains(
                es[i],
            ),
    decreases es.len(),
{
    if es.len() > 0 {
        let less = es.drop_last();
        let last = es.last();
        assert forall|i: int| 0 <= i < less.len() implies #[trigger] less[i] == es[i] by {}
        assert(dir_shaped(streams, root, shape, d, less));
        lemma_dir_without(streams, root, shape, d, less, name);
        law_others_stay(less, name, name);
        let rest = without(less, name);
        let all = without(es, name);
        if last.name != name {
            assert(all == rest.push(last));
            assert(es[es.len() - 1] == last);
            assert forall|i: int| 0 <= i < rest.len() implies (#[trigger] rest[i]).id != last.id
                && bare(rest[i].name) != bare(last.name) by {
                assert(less.contains(rest[i]));
                let k = choose|k: int| 0 <= k < less.len() && less[k] == rest[i];
                assert(es[k] == rest[i]);
            }
            assert forall|i: int, j: int| 0 <= i < j < all.len() implies (#[trigger] all[i]).id != (
            #[trigger] all[j]).id && bare(all[i].name) != bare(all[j].name) by {
                assert(all[i] == rest[i]);
                if j < rest.len() {
                    assert(all[j] == rest[j]);
                }
            }
            assert forall|i: int| 0 <= i < all.len() implies ({
                let e = #[trigger] all[i];
                &&& streams.contains_key(e.id)
                &&& e.id != root
                &&& shape.home[e.id] == d
                &&& shape.dirs.contains(e.id) == names_dir(e.name)
                &&& shape.rank[d] < shape.rank[e.id]
            }) by {
                if i < rest.len() {
                    assert(all[i] == rest[i]);
                }
            }
        }
        assert forall|i: int| 0 <= i < es.len() && (#[trigger] es[i]).name
            != name implies all.contains(es[i]) by {
            if i < less.len() {
                assert(less[i] == es[i]);
                assert(rest.contains(less[i]));
                let k = choose|k: int| 0 <= k < rest.len() && rest[k] == less[i];
                assert(all[k] == es[i]);
            } else {
                assert(all[all.len() - 1] == es[i]);
            }
        }
    }
}

/// The shape without stream `id`.
spec fn without_child(shape: Shape, id: u64) -> Shape {
    Shape { dirs: shape.dirs.remove(id), ..shape }
}

proof fn lemma_child_removed(
    s0: Map<u64, StreamState>,
    s1: Map<u64, StreamState>,
    w: nat,
    root: u64,
    shape: Shape,
    p: u64,
    name: Seq<u8>,
    id: u64,
)
    requires
        shaped(s0, w, root, shape),
        shape.dirs.contains(p),
        find(held_in(s0, w, p), name) == Some(id),
        id != p,
        s1 == s0.insert(p, s1[p]).remove(id),
        entries_of(s1, p, w) == Some(without(held_in(s0, w, p), name)),
        shape.dirs.contains(id) ==> held_in(s0, w, id).len() == 0,
    ensures
        shaped(s1, w, root, without_child(shape, id)),
        id != root,
{
    reveal(shaped);
    let es = held_in(s0, w, p);
    let rest = without(es, name);
    let shape1 = without_child(shape, id);
    assert(dir_shaped(s0, root, shape, p, es));
    lemma_found(es, name);
    let at = choose|i: int| 0 <= i < es.len() && (#[trigger] es[i]).name == name && es[i].id == id;
    lemma_dir_without(s0, root, shape, p, es, name);
    law_others_stay(es, name, name);
    assert(shape.home[id] == p);
    assert forall|d: u64| #[trigger] shape1.dirs.contains(d) implies entries_of(s1, d, w) is Some
        && dir_shaped(s1, root, shape1, d, held_in(s1, w, d)) by {
        assert(shape.dirs.contains(d));
        let old_es = held_in(s0, w, d);
        assert(dir_shaped(s0, root, shape, d, old_es));
        if d == p {
            assert forall|i: int| 0 <= i < rest.len() implies (#[trigger] rest[i]).id != id by {
                assert(es.contains(rest[i]));
                let k = choose|k: int| 0 <= k < es.len() && es[k] == rest[i];
                assert(k != at);
                if k < at {
                    assert(es[k].id != es[at].id);
                } else {
                    assert(es[at].id != es[k].id);
                }
            }
        } else {
            assert(s1[d] == s0[d]);
            assert forall|i: int| 0 <= i < old_es.len() implies (#[trigger] old_es[i]).id
                != id by {}
        }
    }
    assert forall|x: u64| #[trigger] s1.contains_key(x) && x != root implies shape1.dirs.contains(
        shape1.home[x],
    ) && lists(held_in(s1, w, shape1.home[x]), x) by {
        assert(s0.contains_key(x));
        let d = shape.home[x];
        assert(shape.dirs.contains(d));
        let old_es = held_in(s0, w, d);
        let i = choose|i: int| 0 <= i < old_es.len() && (#[trigger] old_es[i]).id == x;
        assert(d != id);
        if d == p {
            assert(i != at);
            if i < at {
                assert(es[i].name != es[at].name);
            } else {
                assert(es[at].name != es[i].name);
            }
            assert(rest.contains(es[i]));
            let k = choose|k: int| 0 <= k < rest.len() && rest[k] == es[i];
            assert(rest[k].id == x);
        } else {
            assert(s1[d] == s0[d]);
            assert(held_in(s1, w, d)[i].id == x);
        }
    }
}

/// What taking an entry out of a directory and deleting its stream does.
pub proof fn lemma_unlinks<H>(wd: World<H>, p: u64, es: Seq<Entry>, name: Seq<u8>, id: u64)
    requires
        1 <= wd.width <= 8,
        wd.streams.contains_key(p),
        parsed(wd.streams[p].data, wd.width) == Some(es),
        unlinked(wd, p, es, name, id) is Done,
    ensures
        ({
            let streams = unlinked(wd, p, es, name, id)->Done_0;
            let s = entries_set(wd, p, without(es, name))->Done_0[p];
            &&& streams == wd.streams.insert(p, s).remove(id)
            &&& parsed(s.data, wd.width) == Some(without(es, name))
            &&& s.compressed == wd.streams[p].compressed
        }),
{
    let rest = without(es, name);
    lemma_parsed_fits(wd.streams[p].data, wd.width);
    law_others_stay(es, name, name);
    assert forall|i: int| 0 <= i < rest.len() implies entry_fits(#[trigger] rest[i], wd.width) by {
        assert(es.contains(rest[i]));
        let k = choose|k: int| 0 <= k < es.len() && es[k] == rest[i];
        assert(parsed(wd.streams[p].data, wd.width).unwrap()[k] == es[k]);
    }
    law_entries_round_trip(rest, wd.width);
}

/// Deleting a stream keeps the tree.
pub proof fn law_stream_removed_sound<H>(wd: World<H>, open: Set<u64>, path: Seq<u8>)
    requires
        sound(wd, open),
        valid_utf8(path),
    ensures
        stream_removed(wd, open, path) matches Outcome::Done(streams) ==> sound(
            with_streams(wd, streams),
            open,
        ),
{
    let shape = choose|shape: Shape| #[trigger] sound_as(wd, open, shape);
    match stream_removed(wd, open, path) {
        Outcome::Done(streams) => {
            let p = walk(wd, wd.root, dirs_of(path))->Done_0;
            let name = leaf_of(path);
            lemma_rooted(wd.streams, wd.width, wd.root, shape);
            lemma_walk_in_tree(wd, shape, wd.root, dirs_of(path));
            lemma_leaf(path, false);
            lemma_in_dir(wd.streams, wd.width, wd.root, shape, p);
            let es = held_in(wd.streams, wd.width, p);
            let id = find(es, name).unwrap();
            lemma_found(es, name);
            assert(!shape.dirs.contains(id));
            lemma_unlinks(wd, p, es, name, id);
            assert(streams =~= wd.streams.insert(p, streams[p]).remove(id));
            lemma_child_removed(
                wd.streams,
                streams,
                wd.width,
                wd.root,
                shape,
                p,
                name,
                id,
            );
            let shape1 = without_child(shape, id);
            assert forall|o: u64| #[trigger] open.contains(o) implies streams.contains_key(o)
                && !shape1.dirs.contains(o) by {}
            assert(sound_as(with_streams(wd, streams), open, shape1));
        },
        _ => {},
    }
}

/// Removing a directory keeps the tree.
pub proof fn law_dir_removed_sound<H>(wd: World<H>, open: Set<u64>, path: Seq<u8>)
    requires
        sound(wd, open),
        valid_utf8(path),
    ensures
        dir_removed(wd, path) matches Outcome::Done(streams) ==> sound(
            with_streams(wd, streams),
            open,
        ),
{
    let shape = choose|shape: Shape| #[trigger] sound_as(wd, open, shape);
    match dir_removed(wd, path) {
        Outcome::Done(streams) => {
            let p = walk(wd, wd.root, dirs_of(path))->Done_0;
            let name = dir_name(leaf_of(path));
            lemma_rooted(wd.streams, wd.width, wd.root, shape);
            lemma_walk_in_tree(wd, shape, wd.root, dirs_of(path));
            lemma_leaf(path, true);
            lemma_in_dir(wd.streams, wd.width, wd.root, shape, p);
            let es = held_in(wd.streams, wd.width, p);
            let id = find(es, name).unwrap();
            lemma_found(es, name);
            assert(shape.dirs.contains(id));
            lemma_in_dir(wd.streams, wd.width, wd.root, shape, id);
            assert(wd.streams[id].data.len() == 0);
            lemma_unlinks(wd, p, es, name, id);
            assert(streams =~= wd.streams.insert(p, streams[p]).remove(id));
            lemma_child_removed(
                wd.streams,
                streams,
                wd.width,
                wd.root,
                shape,
                p,
                name,
                id,
            );
            let shape1 = without_child(shape, id);
            assert forall|o: u64| #[trigger] open.contains(o) implies streams.contains_key(o)
                && !shape1.dirs.contains(o) by {}
            assert(sound_as(with_streams(wd, streams), open, shape1));
        },
        _ => {},
    }
}

// ---------------------------------------------------------------------------
// Moving
// ---------------------------------------------------------------------------

/// Stream `x` is `id` or stands below it.
pub open spec fn below(root: u64, shape: Shape, x: u64, id: u64) -> bool
    decreases shape.rank[x],
{
    x == id || (x != root && shape.rank[shape.home[x]] < shape.rank[x] && below(
        root,
        shape,
        shape.home[x],
        id,
    ))
}

pub proof fn lemma_below_rank(root: u64, shape: Shape, x: u64, id: u64)
    requires
        below(root, shape, x, id),
    ensures
        shape.rank[id] <= shape.rank[x],
    decreases shape.rank[x],
{
    if x != id {
        lemma_below_rank(root, shape, shape.home[x], id);
    }
}

/// The shape with stream `id`, and all below it, in directory `q`.
spec fn moved_child(root: u64, shape: Shape, id: u64, q: u64) -> Shape {
    Shape {
        dirs: shape.dirs,
        home: shape.home.insert(id, q),
        rank: Map::new(
            |x: u64| true,
            |x: u64|
                if below(root, shape, x, id) {
                    shape.rank[x] + shape.rank[q] + 1
                } else {
                    shape.rank[x]
                },
        ),
    }
}

/// The entries of directory `q` after those of a name were taken out of `p`.
spec fn target(
    streams: Map<u64, StreamState>,
    w: nat,
    p: u64,
    q: u64,
    name: Seq<u8>,
) -> Seq<Entry> {
    if p == q {
        without(held_in(streams, w, p), name)
    } else {
        held_in(streams, w, q)
    }
}

/// An entry of another stream stays in order.
proof fn lemma_stays(
    s0: Map<u64, StreamState>,
    s1: Map<u64, StreamState>,
    root: u64,
    shape: Shape,
    id: u64,
    q: u64,
    d: u64,
    es: Seq<Entry>,
)
    requires
        dir_shaped(s0, root, shape, d, es),
        forall|x: u64| #[trigger] s0.contains_key(x) ==> s1.contains_key(x),
        forall|i: int| 0 <= i < es.len() ==> (#[trigger] es[i]).id != id,
    ensures
        dir_shaped(s1, root, moved_child(root, shape, id, q), d, es),
{
    let shape1 = moved_child(root, shape, id, q);
    assert forall|i: int| 0 <= i < es.len() implies ({
        let e = #[trigger] es[i];
        &&& s1.contains_key(e.id)
        &&& e.id != root
        &&& shape1.home[e.id] == d
        &&& shape1.dirs.contains(e.id) == names_dir(e.name)
        &&& shape1.rank[d] < shape1.rank[e.id]
    }) by {
        let c = es[i].id;
        assert(s0.contains_key(c));
        assert(below(root, shape, c, id) == below(root, shape, d, id));
    }
}

proof fn lemma_child_moved(
    s0: Map<u64, StreamState>,
    s1: Map<u64, StreamState>,
    w: nat,
    root: u64,
    shape: Shape,
    p: u64,
    q: u64,
    name: Seq<u8>,
    e: Entry,
)
    requires
        shaped(s0, w, root, shape),
        shape.dirs.contains(p),
        shape.dirs.contains(q),
        find(held_in(s0, w, p), name) == Some(e.id),
        names_dir(e.name) == names_dir(name),
        !below(root, shape, q, e.id),
        s1 == s0.insert(p, s1[p]).insert(q, s1[q]),
        p != q ==> entries_of(s1, p, w) == Some(without(held_in(s0, w, p), name)),
        entries_of(s1, q, w) == Some(target(s0, w, p, q, name).push(e)),
        forall|i: int|
            0 <= i < target(s0, w, p, q, name).len() ==> bare(
                (#[trigger] target(s0, w, p, q, name)[i]).name,
            ) != bare(e.name),
    ensures
        shaped(s1, w, root, moved_child(root, shape, e.id, q)),
{
    reveal(shaped);
    let id = e.id;
    let es = held_in(s0, w, p);
    let rest = without(es, name);
    let there = target(s0, w, p, q, name);
    let there1 = there.push(e);
    let shape1 = moved_child(root, shape, id, q);
    assert(dir_shaped(s0, root, shape, p, es));
    assert(dir_shaped(s0, root, shape, q, held_in(s0, w, q)));
    lemma_found(es, name);
    let at = choose|i: int| 0 <= i < es.len() && (#[trigger] es[i]).name == name && es[i].id == id;
    lemma_dir_without(s0, root, shape, p, es, name);
    law_others_stay(es, name, name);
    assert(s0.contains_key(id) && id != root && shape.home[id] == p);
    assert(s0.contains_key(p)) by {
        assert(entries_of(s0, p, w) is Some);
    }
    assert(s0.contains_key(q)) by {
        assert(entries_of(s0, q, w) is Some);
    }
    assert forall|i: int| 0 <= i < rest.len() implies (#[trigger] rest[i]).id != id by {
        assert(es.contains(rest[i]));
        let k = choose|k: int| 0 <= k < es.len() && es[k] == rest[i];
        assert(k != at);
        if k < at {
            assert(es[k].id != es[at].id);
        } else {
            assert(es[at].id != es[k].id);
        }
    }
    assert forall|x: u64| #[trigger] s0.contains_key(x) implies s1.contains_key(x) by {}
    assert forall|i: int| 0 <= i < there.len() implies (#[trigger] there[i]).id != id by {}
    assert(dir_shaped(s0, root, shape, q, there));
    lemma_stays(s0, s1, root, shape, id, q, q, there);
    assert(dir_shaped(s1, root, shape1, q, there1)) by {
        assert(below(root, shape, id, id));
        assert(shape1.rank[q] < shape1.rank[id]);
        assert forall|i: int| 0 <= i < there1.len() implies ({
            let x = #[trigger] there1[i];
            &&& s1.contains_key(x.id)
            &&& x.id != root
            &&& shape1.home[x.id] == q
            &&& shape1.dirs.contains(x.id) == names_dir(x.name)
            &&& shape1.rank[q] < shape1.rank[x.id]
        }) by {
            if i < there.len() {
                assert(there1[i] == there[i]);
            } else {
                assert(shape.dirs.contains(es[at].id) == names_dir(es[at].name));
            }
        }
        assert forall|i: int, j: int| 0 <= i < j < there1.len() implies (#[trigger] there1[i]).id
            != (#[trigger] there1[j]).id && bare(there1[i].name) != bare(there1[j].name) by {
            assert(there1[i] == there[i]);
            if j < there.len() {
                assert(there1[j] == there[j]);
            }
        }
    }
    assert forall|d: u64| #[trigger] shape1.dirs.contains(d) implies entries_of(s1, d, w) is Some
        && dir_shaped(s1, root, shape1, d, held_in(s1, w, d)) by {
        assert(shape.dirs.contains(d));
        let old_es = held_in(s0, w, d);
        assert(dir_shaped(s0, root, shape, d, old_es));
        if d == q {
        } else if d == p {
            lemma_stays(s0, s1, root, shape, id, q, p, rest);
        } else {
            assert(s1[d] == s0[d]);
            assert forall|i: int| 0 <= i < old_es.len() implies (#[trigger] old_es[i]).id
                != id by {}
            lemma_stays(s0, s1, root, shape, id, q, d, old_es);
        }
    }
    assert forall|x: u64| #[trigger] s1.contains_key(x) && x != root implies shape1.dirs.contains(
        shape1.home[x],
    ) && lists(held_in(s1, w, shape1.home[x]), x) by {
        assert(s0.contains_key(x));
        if x == id {
            assert(there1[there1.len() - 1].id == id);
        } else {
            let d = shape.home[x];
            assert(shape.dirs.contains(d));
            let old_es = held_in(s0, w, d);
            let i = choose|i: int| 0 <= i < old_es.len() && (#[trigger] old_es[i]).id == x;
            if d == p {
                assert(i != at);
                if i < at {
                    assert(es[i].name != es[at].name);
                } else {
                    assert(es[at].name != es[i].name);
                }
                assert(rest.contains(es[i]));
                let k = choose|k: int| 0 <= k < rest.len() && rest[k] == es[i];
                assert(rest[k].id == x);
                if p == q {
                    assert(there1[k].id == x);
                }
            } else if d == q {
                assert(there1[i].id == x);
            } else {
                assert(s1[d] == s0[d]);
                assert(held_in(s1, w, d)[i].id == x);
            }
        }
    }
}

/// A walk and one step more.
pub proof fn lemma_walk_push<H>(wd: World<H>, cur: u64, names: Seq<Seq<u8>>, last: Seq<u8>)
    requires
        walk(wd, cur, names) is Done,
    ensures
        walk(wd, cur, names.push(last)) == walk(wd, walk(wd, cur, names)->Done_0, seq![last]),
    decreases names.len(),
{
    let all = names.push(last);
    if names.len() == 0 {
        assert(all =~= seq![last]);
    } else {
        assert(all[0] == names[0]);
        assert(all.skip(1) =~= names.skip(1).push(last));
        match read_dir(wd, cur, OpenMode::Read) {
            DirState::Entries(es) => {
                let id = find(es, dir_name(names[0])).unwrap();
                lemma_walk_push(wd, id, names.skip(1), last);
            },
            _ => {},
        }
    }
}

/// A walk that ends well ends well before its last step.
pub proof fn lemma_walk_before<H>(wd: World<H>, cur: u64, names: Seq<Seq<u8>>)
    requires
        names.len() > 0,
        walk(wd, cur, names) is Done,
    ensures
        walk(wd, cur, names.drop_last()) is Done,
    decreases names.len(),
{
    if names.len() > 1 {
        match read_dir(wd, cur, OpenMode::Read) {
            DirState::Entries(es) => {
                let id = find(es, dir_name(names[0])).unwrap();
                lemma_walk_before(wd, id, names.skip(1));
                assert(names.drop_last()[0] == names[0]);
                assert(names.drop_last().skip(1) =~= names.skip(1).drop_last());
            },
            _ => {},
        }
    }
}

/// The last step of a walk through a tree: to a stream that stands in the directory
/// before, under that name.
proof fn lemma_last_step<H>(wd: World<H>, shape: Shape, names: Seq<Seq<u8>>)
    requires
        shaped(wd.streams, wd.width, wd.root, shape),
        names.len() > 0,
        walk(wd, wd.root, names) is Done,
    ensures
        walk(wd, wd.root, names.drop_last()) is Done,
        ({
            let x = walk(wd, wd.root, names)->Done_0;
            let d = walk(wd, wd.root, names.drop_last())->Done_0;
            let es = held_in(wd.streams, wd.width, d);
            &&& x != wd.root
            &&& shape.home[x] == d
            &&& shape.rank[d] < shape.rank[x]
            &&& shape.dirs.contains(d)
            &&& dir_shaped(wd.streams, wd.root, shape, d, es)
            &&& exists|i: int|
                0 <= i < es.len() && (#[trigger] es[i]).name == dir_name(names.last()) && es[i].id
                    == x
        }),
{
    lemma_walk_before(wd, wd.root, names);
    let less = names.drop_last();
    assert(names =~= less.push(names.last()));
    lemma_walk_push(wd, wd.root, less, names.last());
    lemma_rooted(wd.streams, wd.width, wd.root, shape);
    lemma_walk_in_tree(wd, shape, wd.root, less);
    let d = walk(wd, wd.root, less)->Done_0;
    lemma_in_dir(wd.streams, wd.width, wd.root, shape, d);
    let es = held_in(wd.streams, wd.width, d);
    let one = seq![names.last()];
    assert(one[0] == names.last());
    assert(one.skip(1) =~= Seq::<Seq<u8>>::empty());
    reveal_with_fuel(walk, 2);
    lemma_found(es, dir_name(names.last()));
}

/// One way leads to a directory.
pub proof fn law_one_way<H>(
    wd: World<H>,
    open: Set<u64>,
    a: Seq<Seq<u8>>,
    b: Seq<Seq<u8>>,
)
    requires
        sound(wd, open),
        walk(wd, wd.root, a) is Done,
        walk(wd, wd.root, b) == walk(wd, wd.root, a),
    ensures
        a == b,
    decreases a.len(),
{
    let shape = choose|shape: Shape| #[trigger] sound_as(wd, open, shape);
    if a.len() > 0 {
        lemma_last_step(wd, shape, a);
    }
    if b.len() > 0 {
        lemma_last_step(wd, shape, b);
    }
    if a.len() == 0 || b.len() == 0 {
        assert(a =~= b);
    } else {
        let x = walk(wd, wd.root, a)->Done_0;
        let d = shape.home[x];
        let es = held_in(wd.streams, wd.width, d);
        let i = choose|i: int|
            0 <= i < es.len() && (#[trigger] es[i]).name == dir_name(a.last()) && es[i].id == x;
        let j = choose|j: int|
            0 <= j < es.len() && (#[trigger] es[j]).name == dir_name(b.last()) && es[j].id == x;
        if i < j {
            assert(es[i].id != es[j].id);
        } else if j < i {
            assert(es[j].id != es[i].id);
        }
        assert(dir_name(a.last()).drop_last() =~= a.last());
        assert(dir_name(b.last()).drop_last() =~= b.last());
        law_one_way(wd, open, a.drop_last(), b.drop_last());
        assert(a =~= a.drop_last().push(a.last()));
        assert(b =~= b.drop_last().push(b.last()));
    }
}

/// The way to what stands below a directory leads through it.
proof fn lemma_through<H>(wd: World<H>, shape: Shape, names: Seq<Seq<u8>>, id: u64)
    requires
        shaped(wd.streams, wd.width, wd.root, shape),
        walk(wd, wd.root, names) is Done,
        id != wd.root,
        below(wd.root, shape, walk(wd, wd.root, names)->Done_0, id),
    ensures
        exists|k: int|
            0 <= k <= names.len() && #[trigger] walk(wd, wd.root, names.take(k)) == Outcome::Done(
                id,
            ),
    decreases names.len(),
{
    let x = walk(wd, wd.root, names)->Done_0;
    if x == id {
        assert(names.take(names.len() as int) =~= names);
        assert(walk(wd, wd.root, names.take(names.len() as int)) == Outcome::Done(id));
    } else {
        assert(names.len() > 0);
        lemma_last_step(wd, shape, names);
        let less = names.drop_last();
        lemma_through(wd, shape, less, id);
        let k = choose|k: int|
            0 <= k <= less.len() && #[trigger] walk(wd, wd.root, less.take(k)) == Outcome::Done(id);
        assert(less.take(k) =~= names.take(k));
        assert(walk(wd, wd.root, names.take(k)) == Outcome::Done(id));
    }
}

/// What renaming does: it takes an entry out of one directory and adds one for the
/// same stream to another, or to the same.
pub proof fn lemma_renames<H>(
    wd: World<H>,
    open: Set<u64>,
    old_path: Seq<u8>,
    new_path: Seq<u8>,
    dir: bool,
)
    requires
        1 <= wd.width <= 8,
        valid_utf8(new_path),
        renamed(wd, open, old_path, new_path, dir) is Done,
    ensures
        walk(wd, wd.root, dirs_of(old_path)) is Done,
        walk(wd, wd.root, dirs_of(new_path)) is Done,
        ({
            let streams = renamed(wd, open, old_path, new_path, dir)->Done_0;
            let p = walk(wd, wd.root, dirs_of(old_path))->Done_0;
            let q = walk(wd, wd.root, dirs_of(new_path))->Done_0;
            let old_name = entry_name(leaf_of(old_path), dir);
            let leaf = leaf_of(new_path);
            let es = parsed(wd.streams[p].data, wd.width).unwrap();
            let there = if p == q {
                es
            } else {
                parsed(wd.streams[q].data, wd.width).unwrap()
            };
            let e = Entry { id: find(es, old_name).unwrap(), name: entry_name(leaf, dir) };
            &&& wd.streams.contains_key(p)
            &&& wd.streams.contains_key(q)
            &&& parsed(wd.streams[p].data, wd.width) is Some
            &&& parsed(wd.streams[q].data, wd.width) is Some
            &&& can_open(wd.handles, p, OpenMode::Write)
            &&& can_open(wd.handles, q, OpenMode::Write)
            &&& wd.streams[p].data.len() <= usize::MAX
            &&& find(es, old_name) is Some
            &&& !dir ==> !open.contains(e.id)
            &&& find(there, leaf) is None
            &&& find(there, dir_name(leaf)) is None
            &&& streams == wd.streams.insert(p, streams[p]).insert(q, streams[q])
            &&& p == q ==> parsed(streams[p].data, wd.width) == Some(
                without(es, old_name).push(e),
            )
            &&& p != q ==> parsed(streams[p].data, wd.width) == Some(without(es, old_name))
                && parsed(streams[q].data, wd.width) == Some(there.push(e))
            &&& streams[p].compressed == wd.streams[p].compressed
            &&& streams[q].compressed == wd.streams[q].compressed
        }),
{
    let streams = renamed(wd, open, old_path, new_path, dir)->Done_0;
    let p = walk(wd, wd.root, dirs_of(old_path))->Done_0;
    let q = walk(wd, wd.root, dirs_of(new_path))->Done_0;
    let w = wd.width;
    let old_name = entry_name(leaf_of(old_path), dir);
    let leaf = leaf_of(new_path);
    let es = parsed(wd.streams[p].data, w).unwrap();
    let id = find(es, old_name).unwrap();
    let e = Entry { id, name: entry_name(leaf, dir) };
    let rest = without(es, old_name);
    lemma_leaf(new_path, dir);
    lemma_parsed_fits(wd.streams[p].data, w);
    lemma_found(es, old_name);
    let at = choose|i: int|
        0 <= i < es.len() && (#[trigger] es[i]).name == old_name && es[i].id == id;
    assert(entry_fits(parsed(wd.streams[p].data, w).unwrap()[at], w));
    law_others_stay(es, old_name, old_name);
    assert forall|i: int| 0 <= i < rest.len() implies entry_fits(#[trigger] rest[i], w) by {
        assert(es.contains(rest[i]));
        let k = choose|k: int| 0 <= k < es.len() && es[k] == rest[i];
        assert(parsed(wd.streams[p].data, w).unwrap()[k] == es[k]);
    }
    if p == q {
        let all = rest.push(e);
        assert forall|i: int| 0 <= i < all.len() implies entry_fits(#[trigger] all[i], w) by {
            if i < rest.len() {
                assert(all[i] == rest[i]);
            }
        }
        law_entries_round_trip(all, w);
        assert(streams =~= wd.streams.insert(p, streams[p]).insert(q, streams[q]));
    } else {
        law_entries_round_trip(rest, w);
        let s1 = entries_set(wd, p, rest)->Done_0;
        let w1 = with_streams(wd, s1);
        assert(s1[q] == wd.streams[q]);
        law_entry_appended(wd.streams[q].data, e, w);
        assert(streams =~= wd.streams.insert(p, streams[p]).insert(q, streams[q]));
    }
}

/// Renaming keeps the tree.
pub proof fn law_renamed_sound<H>(
    wd: World<H>,
    open: Set<u64>,
    old_path: Seq<u8>,
    new_path: Seq<u8>,
    dir: bool,
)
    requires
        sound(wd, open),
        valid_utf8(old_path),
        valid_utf8(new_path),
    ensures
        renamed(wd, open, old_path, new_path, dir) matches Outcome::Done(streams) ==> sound(
            with_streams(wd, streams),
            open,
        ),
{
    let shape = choose|shape: Shape| #[trigger] sound_as(wd, open, shape);
    match renamed(wd, open, old_path, new_path, dir) {
        Outcome::Done(streams) => {
            lemma_renames(wd, open, old_path, new_path, dir);
            let p = walk(wd, wd.root, dirs_of(old_path))->Done_0;
            let q = walk(wd, wd.root, dirs_of(new_path))->Done_0;
            let old_name = entry_name(leaf_of(old_path), dir);
            let leaf = leaf_of(new_path);
            let w = wd.width;
            lemma_rooted(wd.streams, w, wd.root, shape);
            lemma_walk_in_tree(wd, shape, wd.root, dirs_of(old_path));
            lemma_walk_in_tree(wd, shape, wd.root, dirs_of(new_path));
            lemma_in_dir(wd.streams, w, wd.root, shape, p);
            lemma_in_dir(wd.streams, w, wd.root, shape, q);
            lemma_leaf(old_path, dir);
            lemma_leaf(new_path, dir);
            let es = held_in(wd.streams, w, p);
            let id = find(es, old_name).unwrap();
            let e = Entry { id, name: entry_name(leaf, dir) };
            lemma_found(es, old_name);
            let at = choose|i: int|
                0 <= i < es.len() && (#[trigger] es[i]).name == old_name && es[i].id == id;
            assert(id != wd.root && shape.dirs.contains(id) == dir);
            let there = target(wd.streams, w, p, q, old_name);
            let before = if p == q {
                es
            } else {
                held_in(wd.streams, w, q)
            };
            law_others_stay(es, old_name, old_name);
            lemma_bare(before, leaf, dir);
            assert forall|i: int| 0 <= i < there.len() implies bare((#[trigger] there[i]).name)
                != bare(e.name) by {
                if p == q {
                    assert(es.contains(there[i]));
                    let k = choose|k: int| 0 <= k < es.len() && es[k] == there[i];
                    assert(bare(before[k].name) != bare(e.name));
                } else {
                    assert(before[i] == there[i]);
                }
            }
            if below(wd.root, shape, q, id) {
                lemma_below_rank(wd.root, shape, q, id);
                lemma_not_below(wd, open, shape, old_path, dirs_of(new_path), dir, id);
            }
            lemma_child_moved(wd.streams, streams, w, wd.root, shape, p, q, old_name, e);
            let shape1 = moved_child(wd.root, shape, id, q);
            assert forall|o: u64| #[trigger] open.contains(o) implies streams.contains_key(o)
                && !shape1.dirs.contains(o) by {}
            assert(sound_as(with_streams(wd, streams), open, shape1));
        },
        _ => {},
    }
}

/// Only a way through a directory leads below it.
pub proof fn lemma_not_below<H>(
    wd: World<H>,
    open: Set<u64>,
    shape: Shape,
    old_path: Seq<u8>,
    names: Seq<Seq<u8>>,
    dir: bool,
    id: u64,
)
    requires
        sound_as(wd, open, shape),
        walk(wd, wd.root, dirs_of(old_path)) is Done,
        walk(wd, wd.root, names) is Done,
        ({
            let p = walk(wd, wd.root, dirs_of(old_path))->Done_0;
            &&& read_dir(wd, p, OpenMode::Read) is Entries
            &&& find(
                read_dir(wd, p, OpenMode::Read)->Entries_0,
                entry_name(leaf_of(old_path), dir),
            ) == Some(id)
        }),
        id != wd.root,
        shape.dirs.contains(id) == dir,
        dir ==> !components(old_path).is_prefix_of(names),
    ensures
        !below(wd.root, shape, walk(wd, wd.root, names)->Done_0, id),
{
    if below(wd.root, shape, walk(wd, wd.root, names)->Done_0, id) {
        lemma_through(wd, shape, names, id);
        let k = choose|k: int|
            0 <= k <= names.len() && #[trigger] walk(wd, wd.root, names.take(k)) == Outcome::Done(
                id,
            );
        lemma_rooted(wd.streams, wd.width, wd.root, shape);
        lemma_walk_in_tree(wd, shape, wd.root, names.take(k));
        assert(dir);
        let parts = components(old_path);
        lemma_components(old_path);
        lemma_walk_push(wd, wd.root, dirs_of(old_path), leaf_of(old_path));
        assert(parts =~= dirs_of(old_path).push(leaf_of(old_path)));
        let one = seq![leaf_of(old_path)];
        assert(one[0] == leaf_of(old_path));
        assert(one.skip(1) =~= Seq::<Seq<u8>>::empty());
        reveal_with_fuel(walk, 2);
        assert(walk(wd, wd.root, parts) == Outcome::Done(id));
        assert(sound(wd, open));
        law_one_way(wd, open, parts, names.take(k));
        assert(parts.is_prefix_of(names));
    }
}

} // verus!
