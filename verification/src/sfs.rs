//! Layer 4: directories and named streams.

use crate::block_layer::{sentinel, zero_bytes};
use crate::bytes::{
    after_read, copy_range, get_le, law_le_round_trip, le_bytes, le_value, lemma_le_bytes_len,
    lemma_pow256_values, push_le, read_count, same_bytes,
};
use crate::dir_changes::{make_in, remove_dir_in, remove_stream_in, rename_in};
use crate::dir_entries::{
    find_entry, lemma_listing_len, lemma_parsed_fits, list_entries, listing, parsed,
};
use crate::dir_ops::{kept, open_dir, resolve_dir_stream_id, world_of};
use crate::maps::keys_of;
use crate::names::{
    components, dir_name, dirs_of, leads_through, leaf_of, split_parent_leaf, split_path, text_bytes,
    validate_path, views, with_slash,
};
use crate::plain::too_large;
use crate::sfs_model::{
    dir_listed, dir_removed, entry_name, follows, handles_live, kind_of, law_dir_removal_spares_open,
    law_making_spares_open, law_renaming_spares_open, law_stream_removal_spares_open, left_open,
    lemma_walk, made, no_parent, passed_on, path_refused, read_dir, renamed, spares_open, spliced,
    stream_found, stream_removed, strays, tells_path, tells_paths, unit_in, untouched, walk,
    with_streams, DirState, Outcome, World,
};
use crate::stream_layer::{
    cut, empty_stream, exclusive, grown_capacity, lemma_more_issues, tells_apart, written, writes,
    OpenState, StreamLayer, StreamState,
};
use crate::tree_check::{
    collect_stream_ids, entries_of, lemma_names_same, lemma_names_unique, tree_names,
};
use crate::tree_shape::{law_tree_named, sound};
use crate::types::{text_num, DirEntry, HeaderSlotId, OpenMode, SfsError, StreamHandle};
use std::collections::{HashMap, VecDeque};
use vstd::arithmetic::power2::pow2;
use vstd::prelude::*;
use vstd::utf8::decode_utf8;

verus! {

broadcast use vstd::std_specs::hash::group_hash_axioms;

// ---------------------------------------------------------------------------
// Header
// ---------------------------------------------------------------------------

/// The size of the header of the file system in bytes.
pub const L4_PAYLOAD_SIZE: u16 = 15;

/// The letters that the header starts with: "filing".
pub open spec fn l4_identifier() -> Seq<u8> {
    seq![102u8, 105u8, 108u8, 105u8, 110u8, 103u8]
}

/// The bytes of the header.
pub open spec fn l4_header(root: u64) -> Seq<u8> {
    l4_identifier() + seq![0u8] + le_bytes(root as nat, 8)
}

/// The bytes are those of a header.
pub open spec fn is_l4_header(data: Seq<u8>) -> bool {
    data.len() >= L4_PAYLOAD_SIZE && data.subrange(0, 6) == l4_identifier() && data[6] == 0
}

/// The stream of the root directory that a header names.
pub open spec fn l4_root(data: Seq<u8>) -> u64 {
    le_value(data.subrange(7, 15)) as u64
}

/// Writes the header down.
pub(crate) fn serialize_header(root: u64) -> (buf: Vec<u8>)
    ensures
        buf@ == l4_header(root),
        buf@.len() == L4_PAYLOAD_SIZE,
{
    let mut buf: Vec<u8> = vec![102u8, 105u8, 108u8, 105u8, 110u8, 103u8];
    buf.push(0);
    push_le(&mut buf, root, 8);
    proof {
        lemma_le_bytes_len(root as nat, 8);
        assert(buf@ =~= l4_header(root));
    }
    buf
}

/// Reads a header: the stream of the root directory.
pub(crate) fn deserialize_header(data: &[u8]) -> (r: Result<u64, SfsError>)
    ensures
        r is Ok <==> is_l4_header(data@),
        r matches Ok(root) ==> root == l4_root(data@),
        r matches Err(e) ==> e is IoError,
{
    if data.len() < 15 {
        return Err(
            SfsError::IoError(text_num("L4 payload too short: ", data.len() as u64, " < 15")),
        );
    }
    let name: Vec<u8> = vec![102u8, 105u8, 108u8, 105u8, 110u8, 103u8];
    let found: Vec<u8> = copy_range(data, 0, 6);
    proof {
        assert(name@ =~= l4_identifier());
    }
    if !same_bytes(found.as_slice(), name.as_slice()) {
        return Err(SfsError::IoError("expected L4 identifier 'filing'".to_owned()));
    }
    if data[6] != 0 {
        return Err(
            SfsError::IoError(text_num("unsupported L4 version: ", data[6] as u64, "")),
        );
    }
    Ok(get_le(data, 7, 8))
}

/// A header read back from its own bytes gives what was written.
pub proof fn law_l4_header_round_trip(root: u64)
    ensures
        l4_header(root).len() == L4_PAYLOAD_SIZE,
        is_l4_header(l4_header(root)),
        l4_root(l4_header(root)) == root,
{
    lemma_pow256_values();
    lemma_le_bytes_len(root as nat, 8);
    law_le_round_trip(root as nat, 8);
    assert(l4_header(root).subrange(0, 6) =~= l4_identifier());
    assert(l4_header(root).subrange(7, 15) =~= le_bytes(root as nat, 8));
}

// ---------------------------------------------------------------------------
// State
// ---------------------------------------------------------------------------

/// What the file system knows of an open stream.
#[verifier::reject_recursive_types(H)]
struct OpenStreamInfo<H: Copy> {
    stream_id: u64,
    l3_handle: H,
    position: u64,
    mode: OpenMode,
}

/// An open stream: its number, the head position and the mode.
pub struct OpenView {
    pub stream: u64,
    pub position: nat,
    pub mode: OpenMode,
}

/// An open file system.
pub struct Sfs<L3: StreamLayer> {
    layer3: L3,
    root_dir_stream_id: u64,
    mode: OpenMode,
    next_handle_id: u64,
    open_streams: HashMap<u64, OpenStreamInfo<L3::Handle>>,
    /// The calls that failed because no number was left for a handle.
    exhausted: Ghost<nat>,
}

/// The open streams are open in the stream layer, each through a handle of its
/// own, and no head position lies behind the end.
spec fn open_ok<H: Copy>(
    infos: Map<u64, OpenStreamInfo<H>>,
    handles: Map<H, OpenState>,
    streams: Map<u64, StreamState>,
    next: u64,
) -> bool {
    &&& forall|k: u64| #[trigger]
        infos.contains_key(k) ==> k < next && handles.contains_key(infos[k].l3_handle)
            && handles[infos[k].l3_handle] == (OpenState {
            stream: infos[k].stream_id,
            mode: infos[k].mode,
        }) && infos[k].position <= streams[infos[k].stream_id].data.len()
    &&& forall|j: u64, k: u64| #[trigger]
        infos.contains_key(j) && #[trigger] infos.contains_key(k) && j != k ==> infos[j].l3_handle
            != infos[k].l3_handle
}

/// The open streams stay in order where their handles and what these stand for
/// are as before.
proof fn lemma_open_kept<H: Copy>(
    infos: Map<u64, OpenStreamInfo<H>>,
    w0: World<H>,
    w1: World<H>,
    next: u64,
)
    requires
        open_ok(infos, w0.handles, w0.streams, next),
        forall|h: H| #[trigger]
            w0.handles.contains_key(h) ==> w1.handles.contains_key(h) && w1.handles[h]
                == w0.handles[h] && w1.streams[w0.handles[h].stream]
                == w0.streams[w0.handles[h].stream],
    ensures
        open_ok(infos, w1.handles, w1.streams, next),
{
    assert forall|k: u64| #[trigger] infos.contains_key(k) implies k < next
        && w1.handles.contains_key(infos[k].l3_handle) && w1.handles[infos[k].l3_handle] == (
    OpenState { stream: infos[k].stream_id, mode: infos[k].mode }) && infos[k].position
        <= w1.streams[infos[k].stream_id].data.len() by {
        assert(w0.handles.contains_key(infos[k].l3_handle));
    }
}

/// The streams of `all` that are not compressed are those of `plain`.
pub open spec fn holds_plain(all: Map<u64, StreamState>, plain: Map<u64, StreamState>) -> bool {
    &&& forall|id: u64| #[trigger]
        plain.contains_key(id) <==> all.contains_key(id) && !all[id].compressed
    &&& forall|id: u64| #[trigger] plain.contains_key(id) ==> all[id] == plain[id]
}

/// A file system that holds nothing but its root directory.
pub open spec fn new_world<H>(width: u8, shift: u8, vbss: u8) -> World<H> {
    World {
        streams: Map::<u64, StreamState>::empty().insert(0, empty_stream(false)),
        handles: Map::<H, OpenState>::empty(),
        root: 0,
        mode: OpenMode::Write,
        width: width as nat,
        plain_unit: pow2(shift as nat),
        packed_unit: pow2(vbss as nat),
        compression: vbss > 0,
    }
}

impl<L3: StreamLayer> Sfs<L3> {
    /// The state of the file system.
    pub closed spec fn world(&self) -> World<L3::Handle> {
        world_of(self.layer3, self.root_dir_stream_id, self.mode)
    }

    /// The open streams, each by the number of its handle.
    pub closed spec fn open_views(&self) -> Map<u64, OpenView> {
        Map::new(
            |k: u64| self.open_streams@.contains_key(k),
            |k: u64|
                OpenView {
                    stream: self.open_streams@[k].stream_id,
                    position: self.open_streams@[k].position as nat,
                    mode: self.open_streams@[k].mode,
                },
        )
    }

    /// The streams that are open.
    pub open spec fn open_set(&self) -> Set<u64> {
        Set::new(
            |id: u64|
                exists|k: u64| #[trigger]
                    self.open_views().contains_key(k) && self.open_views()[k].stream == id,
        )
    }

    /// The number of calls that failed in the layers below, or for want of a
    /// number for a handle.
    pub closed spec fn faults(&self) -> nat {
        self.layer3.faults() + self.exhausted@
    }

    /// The file system holds handle `h` of the layer below, for an open stream.
    pub closed spec fn is_held(&self, h: L3::Handle) -> bool {
        exists|k: u64| #[trigger]
            self.open_streams@.contains_key(k) && self.open_streams@[k].l3_handle == h
    }

    /// The calls that failed in the layers below.
    pub closed spec fn store_faults(&self) -> nat {
        self.layer3.faults()
    }

    /// How many handles there are numbers for.
    pub closed spec fn handles_left(&self) -> nat {
        (u64::MAX - self.next_handle_id) as nat
    }

    /// There is a number for one more handle.
    pub open spec fn numbers_left(&self) -> bool {
        self.handles_left() > 0
    }

    /// No storage is taken that belongs to no stream.
    pub closed spec fn tidy(&self) -> bool {
        self.layer3.tidy()
    }

    /// The file system is open and can be read, though what it holds may be
    /// damaged.
    pub closed spec fn usable(&self) -> bool {
        self.layer3.usable()
    }

    /// The file system is consistent. What its directories hold may be damaged.
    pub closed spec fn wf(&self) -> bool {
        &&& self.layer3.wf()
        &&& self.layer3.slots().len() > self.layer3.first_slot()
        &&& is_l4_header(self.layer3.slots()[self.layer3.first_slot() as int])
        &&& l4_root(self.layer3.slots()[self.layer3.first_slot() as int])
            == self.root_dir_stream_id
        &&& open_ok(
            self.open_streams@,
            self.layer3.handles(),
            self.layer3.streams(),
            self.next_handle_id,
        )
    }

    /// The layer's header slots for the file system are as they were.
    proof fn lemma_header_kept(a: L3, b: L3)
        requires
            kept(a, b),
            a.slots().len() > a.first_slot(),
        ensures
            b.slots().len() > b.first_slot(),
            b.slots()[b.first_slot() as int] == a.slots()[a.first_slot() as int],
    {
        let f = a.first_slot() as int;
        assert(a.slots().skip(f).len() > 0);
        assert(b.slots().skip(f).len() > 0);
        assert(a.slots().skip(f)[0] == a.slots()[f]);
        assert(b.slots().skip(f)[0] == b.slots()[f]);
    }
}

/// `handles` are those of the layer below without the ones that the file system
/// held.
pub open spec fn handles_dropped<L3: StreamLayer>(
    sfs: Sfs<L3>,
    handles: Map<L3::Handle, OpenState>,
) -> bool {
    &&& forall|h: L3::Handle| #[trigger]
        handles.contains_key(h) <==> sfs.world().handles.contains_key(h) && !sfs.is_held(h)
    &&& forall|h: L3::Handle| #[trigger]
        handles.contains_key(h) ==> handles[h] == sfs.world().handles[h]
}

/// One more element of a list.
proof fn lemma_taken_one_more(s: Seq<u64>, i: int)
    requires
        0 <= i < s.len(),
    ensures
        forall|x: u64| #[trigger]
            s.take(i + 1).contains(x) <==> s.take(i).contains(x) || x == s[i],
{
    let less = s.take(i);
    let more = s.take(i + 1);
    assert(more =~= less.push(s[i]));
    assert forall|x: u64| #[trigger] more.contains(x) <==> less.contains(x) || x == s[i] by {
        if less.contains(x) {
            let j = choose|j: int| 0 <= j < less.len() && less[j] == x;
            assert(more[j] == x);
        }
        if x == s[i] {
            assert(more[i] == x);
        }
        if more.contains(x) && x != s[i] {
            let j = choose|j: int| 0 <= j < more.len() && more[j] == x;
            assert(less[j] == x);
        }
    }
}

/// How a failed or finished change leaves the open streams.
proof fn lemma_open_after<H: Copy>(
    infos: Map<u64, OpenStreamInfo<H>>,
    w0: World<H>,
    w1: World<H>,
    streams: Map<u64, StreamState>,
    next: u64,
)
    requires
        open_ok(infos, w0.handles, w0.streams, next),
        untouched(w0, streams),
        w1.streams == streams,
        w1.handles == w0.handles,
    ensures
        open_ok(infos, w1.handles, w1.streams, next),
{
    lemma_open_kept(infos, w0, w1, next);
}

/// However a change of the tree ends, the open streams stay in order.
proof fn lemma_open_follows<H: Copy, R>(
    infos: Map<u64, OpenStreamInfo<H>>,
    w0: World<H>,
    w1: World<H>,
    out: Outcome<Map<u64, StreamState>>,
    r: Result<R, SfsError>,
    next: u64,
)
    requires
        open_ok(infos, w0.handles, w0.streams, next),
        handles_live(w0),
        spares_open(w0, out),
        follows(out, w0, w1, r),
        !(out is TooLarge),
        out matches Outcome::Done(streams) ==> w1 == with_streams(w0, streams),
    ensures
        open_ok(infos, w1.handles, w1.streams, next),
{
    assert(untouched(w0, w0.streams));
    match out {
        Outcome::Refused(_) => {
            lemma_open_after(infos, w0, w1, w0.streams, next);
        },
        Outcome::Partly(_, streams) => {
            lemma_open_after(infos, w0, w1, streams, next);
        },
        Outcome::Done(streams) => {
            lemma_open_after(infos, w0, w1, streams, next);
        },
        Outcome::TooLarge => {},
    }
}

impl<L3: StreamLayer> Sfs<L3> {
    /// What is known of the state of every consistent file system.
    pub proof fn lemma_world(&self)
        requires
            self.wf(),
        ensures
            handles_live(self.world()),
            exclusive(self.world().handles),
            1 <= self.world().width <= 8,
            1 <= self.world().plain_unit <= 0x8000_0000,
            1 <= self.world().packed_unit <= 0x8000_0000,
            self.world().streams.dom().finite(),
            forall|id: u64| #[trigger]
                self.world().streams.contains_key(id) ==> id < sentinel(self.world().width)
                    && self.world().streams[id].data.len()
                    <= self.world().streams[id].reserved <= u64::MAX
                    && self.world().streams[id].reserved % (if self.world().streams[id].compressed {
                    self.world().packed_unit
                } else {
                    self.world().plain_unit
                }) == 0,
            forall|k: u64| #[trigger]
                self.open_views().contains_key(k) ==> self.world().streams.contains_key(
                    self.open_views()[k].stream,
                ) && self.open_views()[k].position
                    <= self.world().streams[self.open_views()[k].stream].data.len(),
    {
        self.layer3.lemma_wf();
        assert(self.layer3.unit(false) >= 1);
        assert(self.layer3.unit(true) >= 1);
    }

    /// Every handle of the layer below stands for a stream.
    proof fn lemma_live(&self)
        requires
            self.wf(),
        ensures
            handles_live(self.world()),
            1 <= self.layer3.iwidth() <= 8,
    {
        self.layer3.lemma_wf();
    }

    /// A walk that failed leaves the file system in order.
    proof fn lemma_after_walk(a: Self, b: Self, names: Seq<Seq<u8>>, r: Result<u64, SfsError>)
        requires
            a.wf(),
            b.layer3.wf(),
            kept(a.layer3, b.layer3),
            b.root_dir_stream_id == a.root_dir_stream_id,
            b.mode == a.mode,
            b.next_handle_id == a.next_handle_id,
            b.open_streams == a.open_streams,
            follows(walk(a.world(), a.world().root, names), a.world(), b.world(), r),
            walk(a.world(), a.world().root, names) is Done ==> b.world() == a.world(),
        ensures
            b.wf(),
            b.open_views() == a.open_views(),
    {
        a.lemma_live();
        Self::lemma_header_kept(a.layer3, b.layer3);
        lemma_walk(a.world(), a.world().root, names);
        let out = walk(a.world(), a.world().root, names);
        let all: Outcome<Map<u64, StreamState>> = match out {
            Outcome::Done(_) => Outcome::Done(a.world().streams),
            out => passed_on(out),
        };
        assert(with_streams(a.world(), a.world().streams) =~= a.world());
        lemma_open_follows(a.open_streams@, a.world(), b.world(), all, r, a.next_handle_id);
    }

    /// Fails where the file was opened for reading.
    fn require_write(&self) -> (r: Result<(), SfsError>)
        ensures
            r is Ok <==> self.mode is Write,
            r matches Err(e) ==> e is ReadOnly,
    {
        if matches!(self.mode, OpenMode::Read) {
            return Err(SfsError::ReadOnly("SFS file is opened for reading".to_owned()));
        }
        Ok(())
    }

    /// The streams that are open.
    fn open_ids(&self) -> (ids: Vec<u64>)
        ensures
            ids@.to_set() == self.open_set(),
    {
        let keys: Vec<u64> = keys_of(&self.open_streams);
        let mut ids: Vec<u64> = Vec::new();
        let mut i: usize = 0;
        while i < keys.len()
            invariant
                i <= keys@.len(),
                ids@.len() == i,
                forall|k: u64| #[trigger]
                    keys@.contains(k) <==> self.open_streams@.contains_key(k),
                forall|j: int|
                    0 <= j < i ==> #[trigger] ids@[j] == self.open_streams@[keys@[j]].stream_id,
            decreases keys@.len() - i,
        {
            let k: u64 = keys[i];
            proof {
                assert(keys@.contains(k));
                assert(self.open_streams@.contains_key(k));
            }
            let id: u64 = match self.open_streams.get(&k) {
                Some(info) => info.stream_id,
                None => 0,
            };
            ids.push(id);
            i = i + 1;
        }
        proof {
            assert forall|id: u64| ids@.to_set().contains(id) <==> self.open_set().contains(id) by {
                if ids@.contains(id) {
                    let j = choose|j: int| 0 <= j < ids@.len() && ids@[j] == id;
                    assert(keys@.contains(keys@[j]));
                    assert(self.open_views().contains_key(keys@[j]));
                }
                if self.open_set().contains(id) {
                    let k = choose|k: u64| #[trigger]
                        self.open_views().contains_key(k) && self.open_views()[k].stream == id;
                    assert(keys@.contains(k));
                    let j = choose|j: int| 0 <= j < keys@.len() && keys@[j] == k;
                    assert(ids@[j] == id);
                }
            }
            assert(ids@.to_set() =~= self.open_set());
        }
        ids
    }

    /// Checks a path before anything is read. `empty` is said of an empty one.
    fn check_path(&self, path: &[u8], writes: bool, empty: &str) -> (r: Result<(), SfsError>)
        ensures
            match path_refused(self.world(), path@, writes) {
                Some(kind) => r is Err && kind_of(r->Err_0) == kind,
                None => r is Ok,
            },
    {
        if writes {
            match self.require_write() {
                Ok(_) => {},
                Err(e) => {
                    return Err(e);
                },
            }
        }
        if path.len() == 0 {
            return Err(SfsError::InvalidPath(empty.to_owned()));
        }
        validate_path(path)
    }

    /// A stream was made, or could not be made.
    proof fn lemma_after_making(
        &self,
        a: Self,
        b: Self,
        path: Seq<u8>,
        dir: bool,
        packed: bool,
        r: Result<u64, SfsError>,
    )
        requires
            a.wf(),
            b.wf(),
            kept(a.layer3, b.layer3),
            b.world() == a.world(),
            b.open_streams == a.open_streams,
            b.next_handle_id == a.next_handle_id,
            self.layer3.wf(),
            kept(b.layer3, self.layer3),
            self.root_dir_stream_id == a.root_dir_stream_id,
            self.mode == a.mode,
            self.next_handle_id == a.next_handle_id,
            self.open_streams == a.open_streams,
            follows(made(a.world(), path, dir, packed), a.world(), self.world(), r),
            made(a.world(), path, dir, packed) matches Outcome::Done(done) ==> self.world()
                == with_streams(a.world(), done.1),
        ensures
            self.open_views() == a.open_views(),
            !(made(a.world(), path, dir, packed) is TooLarge) ==> self.wf(),
            a.tidy() ==> self.tidy(),
    {
        a.lemma_live();
        Self::lemma_header_kept(b.layer3, self.layer3);
        law_making_spares_open(a.world(), path, dir, packed);
        let out = made(a.world(), path, dir, packed);
        assert(untouched(a.world(), a.world().streams));
        let all: Outcome<Map<u64, StreamState>> = match out {
            Outcome::Done(done) => Outcome::Done(done.1),
            out => passed_on(out),
        };
        if !(out is TooLarge) {
            lemma_open_follows(
                a.open_streams@,
                a.world(),
                self.world(),
                all,
                r,
                a.next_handle_id,
            );
        }
    }

    /// A change of the tree was made, or could not be made.
    proof fn lemma_after_change(
        &self,
        a: Self,
        b: Self,
        out: Outcome<Map<u64, StreamState>>,
        r: Result<(), SfsError>,
    )
        requires
            a.wf(),
            b.wf(),
            kept(a.layer3, b.layer3),
            b.world() == a.world(),
            b.open_streams == a.open_streams,
            b.next_handle_id == a.next_handle_id,
            self.layer3.wf(),
            kept(b.layer3, self.layer3),
            self.root_dir_stream_id == a.root_dir_stream_id,
            self.mode == a.mode,
            self.next_handle_id == a.next_handle_id,
            self.open_streams == a.open_streams,
            spares_open(a.world(), out),
            follows(out, a.world(), self.world(), r),
            out matches Outcome::Done(streams) ==> self.world() == with_streams(
                a.world(),
                streams,
            ),
        ensures
            self.open_views() == a.open_views(),
            !(out is TooLarge) ==> self.wf(),
            a.tidy() ==> self.tidy(),
    {
        a.lemma_live();
        Self::lemma_header_kept(b.layer3, self.layer3);
        if !(out is TooLarge) {
            lemma_open_follows(
                a.open_streams@,
                a.world(),
                self.world(),
                out,
                r,
                a.next_handle_id,
            );
        }
    }

    /// Creates a directory. Its parent must exist.
    pub fn mkdir(&mut self, path: &str) -> (r: Result<(), SfsError>)
        requires
            old(self).wf(),
        ensures
            final(self).faults() >= old(self).faults(),
            final(self).handles_left() == old(self).handles_left(),
            r is Ok ==> final(self).faults() == old(self).faults(),
            final(self).store_faults() == old(self).store_faults() ==> final(self).faults() == old(
                self,
            ).faults(),
            final(self).faults() == old(self).faults() ==> {
                let out = made(old(self).world(), text_bytes(path), true, false);
                &&& follows(out, old(self).world(), final(self).world(), r)
                &&& tells_path(old(self).world(), OpenMode::Write, leaf_of(text_bytes(path)), path@, r)
                &&& out matches Outcome::Done(done) ==> final(self).world() == with_streams(
                    old(self).world(),
                    done.1,
                )
                &&& final(self).open_views() == old(self).open_views()
                &&& !(out is TooLarge) ==> final(self).wf() && (old(self).tidy() ==> final(self).tidy())
            },
    {
        let bytes: &[u8] = path.as_bytes();
        let ghost a = *self;
        proof {
            self.lemma_live();
        }
        match self.check_path(bytes, true, "cannot create root directory") {
            Ok(_) => {},
            Err(e) => {
                return Err(e);
            },
        }
        let (dirs, leaf) = split_parent_leaf(bytes);
        let parent_id: u64 = match resolve_dir_stream_id(
            &mut self.layer3,
            self.root_dir_stream_id,
            &dirs,
            Ghost(self.mode),
        ) {
            Ok(id) => id,
            Err(e) => {
                proof {
                    if self.layer3.faults() == old(self).layer3.faults() {
                        Self::lemma_after_walk(a, *self, dirs_of(bytes@), Err(e));
                    }
                }
                return Err(e);
            },
        };
        let ghost b = *self;
        proof {
            Self::lemma_after_walk(a, b, dirs_of(bytes@), Ok(parent_id));
        }
        match make_in(
            &mut self.layer3,
            parent_id,
            leaf.as_slice(),
            true,
            false,
            path,
            Ghost(self.root_dir_stream_id),
            Ghost(self.mode),
        ) {
            Ok(id) => {
                proof {
                    self.lemma_after_making(a, b, bytes@, true, false, Ok(id));
                }
                Ok(())
            },
            Err(e) => {
                proof {
                    if self.layer3.faults() == old(self).layer3.faults() {
                        self.lemma_after_making(a, b, bytes@, true, false, Err(e));
                    }
                }
                Err(e)
            },
        }
    }

    /// Removes an empty directory.
    pub fn rmdir(&mut self, path: &str) -> (r: Result<(), SfsError>)
        requires
            old(self).wf(),
        ensures
            final(self).faults() >= old(self).faults(),
            final(self).handles_left() == old(self).handles_left(),
            r is Ok ==> final(self).faults() == old(self).faults(),
            final(self).store_faults() == old(self).store_faults() ==> final(self).faults() == old(
                self,
            ).faults(),
            final(self).faults() == old(self).faults() ==> {
                let out = dir_removed(old(self).world(), text_bytes(path));
                &&& follows(out, old(self).world(), final(self).world(), r)
                &&& tells_path(
                    old(self).world(),
                    OpenMode::Write,
                    dir_name(leaf_of(text_bytes(path))),
                    path@,
                    r,
                )
                &&& out matches Outcome::Done(streams) ==> final(self).world() == with_streams(
                    old(self).world(),
                    streams,
                )
                &&& final(self).open_views() == old(self).open_views()
                &&& !(out is TooLarge) ==> final(self).wf() && (old(self).tidy() ==> final(self).tidy())
            },
    {
        let bytes: &[u8] = path.as_bytes();
        let ghost a = *self;
        proof {
            self.lemma_live();
        }
        match self.check_path(bytes, true, "cannot remove root directory") {
            Ok(_) => {},
            Err(e) => {
                return Err(e);
            },
        }
        let (dirs, leaf) = split_parent_leaf(bytes);
        let parent_id: u64 = match resolve_dir_stream_id(
            &mut self.layer3,
            self.root_dir_stream_id,
            &dirs,
            Ghost(self.mode),
        ) {
            Ok(id) => id,
            Err(e) => {
                proof {
                    if self.layer3.faults() == old(self).layer3.faults() {
                        Self::lemma_after_walk(a, *self, dirs_of(bytes@), Err(e));
                    }
                }
                return Err(e);
            },
        };
        let ghost b = *self;
        proof {
            Self::lemma_after_walk(a, b, dirs_of(bytes@), Ok(parent_id));
        }
        let name: Vec<u8> = with_slash(leaf.as_slice());
        let r = remove_dir_in(
            &mut self.layer3,
            parent_id,
            name.as_slice(),
            path,
            Ghost(self.root_dir_stream_id),
            Ghost(self.mode),
        );
        proof {
            if self.layer3.faults() == old(self).layer3.faults() {
                law_dir_removal_spares_open(a.world(), bytes@);
                self.lemma_after_change(a, b, dir_removed(a.world(), bytes@), r);
            }
        }
        r
    }

    /// Deletes a stream that is not open.
    pub fn delete_stream(&mut self, path: &str) -> (r: Result<(), SfsError>)
        requires
            old(self).wf(),
        ensures
            final(self).faults() >= old(self).faults(),
            final(self).handles_left() == old(self).handles_left(),
            r is Ok ==> final(self).faults() == old(self).faults(),
            final(self).store_faults() == old(self).store_faults() ==> final(self).faults() == old(
                self,
            ).faults(),
            final(self).faults() == old(self).faults() ==> {
                let out = stream_removed(
                    old(self).world(),
                    old(self).open_set(),
                    text_bytes(path),
                );
                &&& follows(out, old(self).world(), final(self).world(), r)
                &&& tells_path(old(self).world(), OpenMode::Write, leaf_of(text_bytes(path)), path@, r)
                &&& out matches Outcome::Done(streams) ==> final(self).world() == with_streams(
                    old(self).world(),
                    streams,
                )
                &&& final(self).open_views() == old(self).open_views()
                &&& !(out is TooLarge) ==> final(self).wf() && (old(self).tidy() ==> final(self).tidy())
            },
    {
        let bytes: &[u8] = path.as_bytes();
        let ghost a = *self;
        proof {
            self.lemma_live();
        }
        match self.check_path(bytes, true, "stream path cannot be empty") {
            Ok(_) => {},
            Err(e) => {
                return Err(e);
            },
        }
        let (dirs, leaf) = split_parent_leaf(bytes);
        let parent_id: u64 = match resolve_dir_stream_id(
            &mut self.layer3,
            self.root_dir_stream_id,
            &dirs,
            Ghost(self.mode),
        ) {
            Ok(id) => id,
            Err(e) => {
                proof {
                    if self.layer3.faults() == old(self).layer3.faults() {
                        Self::lemma_after_walk(a, *self, dirs_of(bytes@), Err(e));
                    }
                }
                return Err(e);
            },
        };
        let ghost b = *self;
        proof {
            Self::lemma_after_walk(a, b, dirs_of(bytes@), Ok(parent_id));
        }
        let open: Vec<u64> = self.open_ids();
        let r = remove_stream_in(
            &mut self.layer3,
            &open,
            parent_id,
            leaf.as_slice(),
            path,
            Ghost(self.root_dir_stream_id),
            Ghost(self.mode),
        );
        proof {
            if self.layer3.faults() == old(self).layer3.faults() {
                law_stream_removal_spares_open(a.world(), a.open_set(), bytes@);
                self.lemma_after_change(a, b, stream_removed(a.world(), a.open_set(), bytes@), r);
            }
        }
        r
    }


    /// Renames or moves a stream or, where `dir`, a directory.
    fn rename(&mut self, old_path: &str, new_path: &str, dir: bool) -> (r: Result<(), SfsError>)
        requires
            old(self).wf(),
        ensures
            final(self).faults() >= old(self).faults(),
            final(self).handles_left() == old(self).handles_left(),
            r is Ok ==> final(self).faults() == old(self).faults(),
            final(self).store_faults() == old(self).store_faults() ==> final(self).faults() == old(
                self,
            ).faults(),
            final(self).faults() == old(self).faults() ==> {
                let out = renamed(
                    old(self).world(),
                    old(self).open_set(),
                    text_bytes(old_path),
                    text_bytes(new_path),
                    dir,
                );
                &&& follows(out, old(self).world(), final(self).world(), r)
                &&& tells_paths(
                    old(self).world(),
                    entry_name(leaf_of(text_bytes(old_path)), dir),
                    old_path@,
                    new_path@,
                    r,
                )
                &&& out matches Outcome::Done(streams) ==> final(self).world() == with_streams(
                    old(self).world(),
                    streams,
                )
                &&& final(self).open_views() == old(self).open_views()
                &&& !(out is TooLarge) ==> final(self).wf() && (old(self).tidy()
                    ==> final(self).tidy())
            },
    {
        let old_bytes: &[u8] = old_path.as_bytes();
        let new_bytes: &[u8] = new_path.as_bytes();
        let ghost a = *self;
        proof {
            self.lemma_live();
        }
        let empty: &str = if dir {
            "cannot rename root directory"
        } else {
            "stream path cannot be empty"
        };
        match self.check_path(old_bytes, true, empty) {
            Ok(_) => {},
            Err(e) => {
                return Err(e);
            },
        }
        match self.check_path(new_bytes, true, empty) {
            Ok(_) => {},
            Err(e) => {
                return Err(e);
            },
        }
        let (old_dirs, old_leaf) = split_parent_leaf(old_bytes);
        let (new_dirs, new_leaf) = split_parent_leaf(new_bytes);
        if dir && leads_through(old_bytes, &new_dirs) {
            return Err(
                SfsError::InvalidPath("a directory cannot be moved below itself".to_owned()),
            );
        }
        let from: u64 = match resolve_dir_stream_id(
            &mut self.layer3,
            self.root_dir_stream_id,
            &old_dirs,
            Ghost(self.mode),
        ) {
            Ok(id) => id,
            Err(e) => {
                proof {
                    if self.layer3.faults() == old(self).layer3.faults() {
                        Self::lemma_after_walk(a, *self, dirs_of(old_bytes@), Err(e));
                    }
                }
                return Err(e);
            },
        };
        let ghost b = *self;
        proof {
            Self::lemma_after_walk(a, b, dirs_of(old_bytes@), Ok(from));
        }
        let to: u64 = match resolve_dir_stream_id(
            &mut self.layer3,
            self.root_dir_stream_id,
            &new_dirs,
            Ghost(self.mode),
        ) {
            Ok(id) => id,
            Err(e) => {
                proof {
                    if self.layer3.faults() == old(self).layer3.faults() {
                        Self::lemma_after_walk(b, *self, dirs_of(new_bytes@), Err(e));
                    }
                }
                return Err(e);
            },
        };
        let ghost c = *self;
        proof {
            Self::lemma_after_walk(b, c, dirs_of(new_bytes@), Ok(to));
        }
        let open: Vec<u64> = self.open_ids();
        let r = rename_in(
            &mut self.layer3,
            &open,
            from,
            old_leaf.as_slice(),
            to,
            new_leaf.as_slice(),
            dir,
            old_path,
            new_path,
            Ghost(self.root_dir_stream_id),
            Ghost(self.mode),
        );
        proof {
            if self.layer3.faults() == old(self).layer3.faults() {
                let out = renamed(a.world(), a.open_set(), old_bytes@, new_bytes@, dir);
                law_renaming_spares_open(a.world(), a.open_set(), old_bytes@, new_bytes@, dir);
                assert(c.open_set() =~= a.open_set());
                self.lemma_after_change(a, c, out, r);
            }
        }
        r
    }

    /// Renames or moves a directory. Nothing of the new name may exist.
    pub fn rename_dir(&mut self, old_path: &str, new_path: &str) -> (r: Result<(), SfsError>)
        requires
            old(self).wf(),
        ensures
            final(self).faults() >= old(self).faults(),
            final(self).handles_left() == old(self).handles_left(),
            r is Ok ==> final(self).faults() == old(self).faults(),
            final(self).store_faults() == old(self).store_faults() ==> final(self).faults() == old(
                self,
            ).faults(),
            final(self).faults() == old(self).faults() ==> {
                let out = renamed(
                    old(self).world(),
                    old(self).open_set(),
                    text_bytes(old_path),
                    text_bytes(new_path),
                    true,
                );
                &&& follows(out, old(self).world(), final(self).world(), r)
                &&& tells_paths(
                    old(self).world(),
                    entry_name(leaf_of(text_bytes(old_path)), true),
                    old_path@,
                    new_path@,
                    r,
                )
                &&& out matches Outcome::Done(streams) ==> final(self).world() == with_streams(
                    old(self).world(),
                    streams,
                )
                &&& final(self).open_views() == old(self).open_views()
                &&& !(out is TooLarge) ==> final(self).wf() && (old(self).tidy()
                    ==> final(self).tidy())
            },
    {
        self.rename(old_path, new_path, true)
    }

    /// Renames or moves a stream that is not open. Nothing of the new name may
    /// exist.
    pub fn rename_stream(&mut self, old_path: &str, new_path: &str) -> (r: Result<(), SfsError>)
        requires
            old(self).wf(),
        ensures
            final(self).faults() >= old(self).faults(),
            final(self).handles_left() == old(self).handles_left(),
            r is Ok ==> final(self).faults() == old(self).faults(),
            final(self).store_faults() == old(self).store_faults() ==> final(self).faults() == old(
                self,
            ).faults(),
            final(self).faults() == old(self).faults() ==> {
                let out = renamed(
                    old(self).world(),
                    old(self).open_set(),
                    text_bytes(old_path),
                    text_bytes(new_path),
                    false,
                );
                &&& follows(out, old(self).world(), final(self).world(), r)
                &&& tells_paths(
                    old(self).world(),
                    entry_name(leaf_of(text_bytes(old_path)), false),
                    old_path@,
                    new_path@,
                    r,
                )
                &&& out matches Outcome::Done(streams) ==> final(self).world() == with_streams(
                    old(self).world(),
                    streams,
                )
                &&& final(self).open_views() == old(self).open_views()
                &&& !(out is TooLarge) ==> final(self).wf() && (old(self).tidy()
                    ==> final(self).tidy())
            },
    {
        self.rename(old_path, new_path, false)
    }

    /// Lists a directory, sorted by name. The empty path is the root.
    pub fn list(&mut self, path: &str) -> (r: Result<Vec<DirEntry>, SfsError>)
        requires
            old(self).wf(),
        ensures
            final(self).faults() >= old(self).faults(),
            final(self).handles_left() == old(self).handles_left(),
            r is Ok ==> final(self).faults() == old(self).faults(),
            final(self).store_faults() == old(self).store_faults() ==> final(self).faults() == old(
                self,
            ).faults(),
            final(self).faults() == old(self).faults() ==> {
                let out = dir_listed(old(self).world(), text_bytes(path));
                &&& follows(out, old(self).world(), final(self).world(), r)
                &&& path@.len() > 0 && strays(
                    old(self).world(),
                    old(self).world().root,
                    components(text_bytes(path)),
                ) ==> (r matches Err(SfsError::NotFound(said)) ==> said@ == no_parent())
                &&& out matches Outcome::Done(es) ==> {
                    &&& final(self).world() == old(self).world()
                    &&& r->Ok_0@.len() == listing(es).len()
                    &&& forall|i: int|
                        0 <= i < r->Ok_0@.len() ==> {
                            &&& (#[trigger] r->Ok_0@[i]).name@ == decode_utf8(listing(es)[i].name)
                            &&& r->Ok_0@[i].entry_type == listing(es)[i].entry_type
                        }
                }
                &&& final(self).open_views() == old(self).open_views()
                &&& final(self).wf()
                &&& old(self).tidy() ==> final(self).tidy()
            },
    {
        let bytes: &[u8] = path.as_bytes();
        let ghost a = *self;
        proof {
            self.lemma_live();
        }
        let names: Vec<Vec<u8>> = if bytes.len() == 0 {
            Vec::new()
        } else {
            match validate_path(bytes) {
                Ok(_) => {},
                Err(e) => {
                    return Err(e);
                },
            }
            split_path(bytes)
        };
        let ghost all = views(names@);
        proof {
            if bytes@.len() == 0 {
                assert(all =~= Seq::<Seq<u8>>::empty());
            }
        }
        let dir_id: u64 = match resolve_dir_stream_id(
            &mut self.layer3,
            self.root_dir_stream_id,
            &names,
            Ghost(self.mode),
        ) {
            Ok(id) => id,
            Err(e) => {
                proof {
                    if self.layer3.faults() == old(self).layer3.faults() {
                        Self::lemma_after_walk(a, *self, all, Err(e));
                    }
                }
                return Err(e);
            },
        };
        let ghost b = *self;
        proof {
            Self::lemma_after_walk(a, b, all, Ok(dir_id));
        }
        let (handle, entries) = match open_dir(
            &mut self.layer3,
            dir_id,
            OpenMode::Read,
            Ghost(self.root_dir_stream_id),
            Ghost(self.mode),
        ) {
            Ok(found) => found,
            Err(e) => {
                proof {
                    if self.layer3.faults() == old(self).layer3.faults() {
                        let out: Outcome<Map<u64, StreamState>> = match read_dir(
                            a.world(),
                            dir_id,
                            OpenMode::Read,
                        ) {
                            DirState::Refused(kind) => Outcome::Refused(kind),
                            _ => Outcome::Done(a.world().streams),
                        };
                        assert(untouched(a.world(), a.world().streams));
                        self.lemma_after_change(a, b, out, Err(e));
                    }
                }
                return Err(e);
            },
        };
        match self.layer3.close_stream(handle) {
            Ok(_) => {},
            Err(e) => {
                return Err(e);
            },
        }
        proof {
            assert(self.layer3.handles() =~= a.layer3.handles());
            assert(self.world() =~= a.world());
            assert(with_streams(a.world(), a.world().streams) =~= a.world());
            assert(untouched(a.world(), a.world().streams));
            self.lemma_after_change(a, b, Outcome::Done(a.world().streams), Ok(()));
            let data = a.world().streams[dir_id].data;
            lemma_parsed_fits(data, a.world().width);
            let es = parsed(data, a.world().width).unwrap();
            assert forall|i: int| 0 <= i < entries@.len() implies vstd::utf8::valid_utf8(
                #[trigger] entries@[i].name@,
            ) by {
                assert(es[i] == entries@[i]@);
            }
            lemma_listing_len(es);
        }
        Ok(list_entries(&entries))
    }

    /// Gives an open stream of the layer below a handle of the file system, with
    /// the head at its start.
    fn add_handle(&mut self, stream_id: u64, l3_handle: L3::Handle, mode: OpenMode) -> (r: Result<
        StreamHandle,
        SfsError,
    >)
        requires
            old(self).layer3.wf(),
            old(self).layer3.slots().len() > old(self).layer3.first_slot(),
            is_l4_header(old(self).layer3.slots()[old(self).layer3.first_slot() as int]),
            l4_root(old(self).layer3.slots()[old(self).layer3.first_slot() as int]) == old(
                self,
            ).root_dir_stream_id,
            old(self).layer3.handles().contains_key(l3_handle),
            old(self).layer3.handles()[l3_handle] == (OpenState { stream: stream_id, mode }),
            open_ok(
                old(self).open_streams@,
                old(self).layer3.handles(),
                old(self).layer3.streams(),
                old(self).next_handle_id,
            ),
            forall|k: u64| #[trigger]
                old(self).open_streams@.contains_key(k) ==> old(self).open_streams@[k].l3_handle
                    != l3_handle,
        ensures
            final(self).layer3 == old(self).layer3,
            final(self).root_dir_stream_id == old(self).root_dir_stream_id,
            final(self).mode == old(self).mode,
            r is Ok <==> old(self).numbers_left(),
            r is Ok ==> final(self).exhausted == old(self).exhausted,
            r is Err ==> final(self).exhausted@ == old(self).exhausted@ + 1,
            r is Ok ==> final(self).handles_left() == old(self).handles_left() - 1,
            r is Err ==> final(self).handles_left() == old(self).handles_left(),
            r matches Ok(handle) ==> {
                &&& final(self).wf()
                &&& !old(self).open_views().contains_key(handle.num())
                &&& final(self).open_views() == old(self).open_views().insert(
                    handle.num(),
                    OpenView { stream: stream_id, position: 0, mode },
                )
            },
    {
        if self.next_handle_id == u64::MAX {
            self.exhausted = Ghost(self.exhausted@ + 1);
            return Err(SfsError::IoError("no handle numbers left".to_owned()));
        }
        let handle_id: u64 = self.next_handle_id;
        self.next_handle_id = handle_id + 1;
        let ghost infos = self.open_streams@;
        let info = OpenStreamInfo { stream_id, l3_handle, position: 0, mode };
        self.open_streams.insert(handle_id, info);
        proof {
            assert(self.open_streams@ =~= infos.insert(handle_id, info));
            assert(open_ok(
                self.open_streams@,
                self.layer3.handles(),
                self.layer3.streams(),
                self.next_handle_id,
            )) by {
                assert forall|k: u64| #[trigger] self.open_streams@.contains_key(k) implies k
                    < self.next_handle_id && self.layer3.handles().contains_key(
                    self.open_streams@[k].l3_handle,
                ) && self.layer3.handles()[self.open_streams@[k].l3_handle] == (OpenState {
                    stream: self.open_streams@[k].stream_id,
                    mode: self.open_streams@[k].mode,
                }) && self.open_streams@[k].position
                    <= self.layer3.streams()[self.open_streams@[k].stream_id].data.len() by {
                    if k != handle_id {
                        assert(infos.contains_key(k));
                    }
                }
                assert forall|j: u64, k: u64| #[trigger]
                    self.open_streams@.contains_key(j) && #[trigger] self.open_streams@.contains_key(
                        k,
                    ) && j != k implies self.open_streams@[j].l3_handle
                    != self.open_streams@[k].l3_handle by {
                    if j != handle_id {
                        assert(infos.contains_key(j));
                    }
                    if k != handle_id {
                        assert(infos.contains_key(k));
                    }
                }
            }
            assert(self.open_views() =~= old(self).open_views().insert(
                handle_id,
                OpenView { stream: stream_id, position: 0, mode },
            ));
            assert(!infos.contains_key(handle_id));
        }
        Ok(StreamHandle::from_id(handle_id))
    }

    /// Creates a stream and opens it for writing, with the head at its start.
    pub fn create_stream(&mut self, path: &str) -> (r: Result<StreamHandle, SfsError>)
        requires
            old(self).wf(),
        ensures
            final(self).faults() >= old(self).faults(),
            final(self).handles_left() == old(self).handles_left() - if r is Ok {
                1int
            } else {
                0
            },
            r is Ok ==> final(self).faults() == old(self).faults(),
            final(self).store_faults() == old(self).store_faults() && old(self).numbers_left()
                ==> final(self).faults() == old(self).faults(),
            final(self).faults() == old(self).faults() ==> {
                let out = made(old(self).world(), text_bytes(path), false, false);
                &&& out is Done ==> r is Ok
                &&& !(out is Done) ==> follows(out, old(self).world(), final(self).world(), r)
                    && final(self).open_views() == old(self).open_views()
                &&& tells_path(old(self).world(), OpenMode::Write, leaf_of(text_bytes(path)), path@, r)
                &&& out matches Outcome::Done(done) ==> {
                    let w0 = old(self).world();
                    let w1 = final(self).world();
                    let num = r->Ok_0.num();
                    &&& left_open(w0.handles, w1.handles, done.0, OpenMode::Write)
                    &&& w1 == (World { streams: done.1, handles: w1.handles, ..w0 })
                    &&& !old(self).open_views().contains_key(num)
                    &&& final(self).open_views() == old(self).open_views().insert(
                        num,
                        OpenView { stream: done.0, position: 0, mode: OpenMode::Write },
                    )
                }
                &&& !(out is TooLarge) ==> final(self).wf() && (old(self).tidy()
                    ==> final(self).tidy())
            },
    {
        self.create_stream_as(path, false)
    }

    /// Creates a stream, compressed or not, and opens it for writing, with the head
    /// at its start.
    pub fn create_stream_as(&mut self, path: &str, compressed: bool) -> (r: Result<
        StreamHandle,
        SfsError,
    >)
        requires
            old(self).wf(),
        ensures
            final(self).faults() >= old(self).faults(),
            final(self).handles_left() == old(self).handles_left() - if r is Ok {
                1int
            } else {
                0
            },
            r is Ok ==> final(self).faults() == old(self).faults(),
            final(self).store_faults() == old(self).store_faults() && old(self).numbers_left()
                ==> final(self).faults() == old(self).faults(),
            final(self).faults() == old(self).faults() ==> {
                let out = made(old(self).world(), text_bytes(path), false, compressed);
                &&& out is Done ==> r is Ok
                &&& !(out is Done) ==> follows(out, old(self).world(), final(self).world(), r)
                    && final(self).open_views() == old(self).open_views()
                &&& tells_path(old(self).world(), OpenMode::Write, leaf_of(text_bytes(path)), path@, r)
                &&& out matches Outcome::Done(done) ==> {
                    let w0 = old(self).world();
                    let w1 = final(self).world();
                    let num = r->Ok_0.num();
                    &&& left_open(w0.handles, w1.handles, done.0, OpenMode::Write)
                    &&& w1 == (World { streams: done.1, handles: w1.handles, ..w0 })
                    &&& !old(self).open_views().contains_key(num)
                    &&& final(self).open_views() == old(self).open_views().insert(
                        num,
                        OpenView { stream: done.0, position: 0, mode: OpenMode::Write },
                    )
                }
                &&& !(out is TooLarge) ==> final(self).wf() && (old(self).tidy()
                    ==> final(self).tidy())
            },
    {
        let bytes: &[u8] = path.as_bytes();
        let ghost a = *self;
        proof {
            self.lemma_live();
        }
        match self.check_path(bytes, true, "stream path cannot be empty") {
            Ok(_) => {},
            Err(e) => {
                return Err(e);
            },
        }
        let (dirs, leaf) = split_parent_leaf(bytes);
        let parent_id: u64 = match resolve_dir_stream_id(
            &mut self.layer3,
            self.root_dir_stream_id,
            &dirs,
            Ghost(self.mode),
        ) {
            Ok(id) => id,
            Err(e) => {
                proof {
                    if self.layer3.faults() == old(self).layer3.faults() {
                        Self::lemma_after_walk(a, *self, dirs_of(bytes@), Err(e));
                    }
                }
                return Err(e);
            },
        };
        let ghost b = *self;
        proof {
            Self::lemma_after_walk(a, b, dirs_of(bytes@), Ok(parent_id));
        }
        let id: u64 = match make_in(
            &mut self.layer3,
            parent_id,
            leaf.as_slice(),
            false,
            compressed,
            path,
            Ghost(self.root_dir_stream_id),
            Ghost(self.mode),
        ) {
            Ok(id) => id,
            Err(e) => {
                proof {
                    if self.layer3.faults() == old(self).layer3.faults() {
                        self.lemma_after_making(a, b, bytes@, false, compressed, Err(e));
                    }
                }
                return Err(e);
            },
        };
        let ghost c = *self;
        proof {
            c.lemma_after_making(a, b, bytes@, false, compressed, Ok(id));
            law_making_spares_open(a.world(), bytes@, false, compressed);
            c.lemma_live();
            a.lemma_live();
            // Nobody has the new stream open.
            assert forall|h: L3::Handle| #[trigger]
                c.layer3.handles().contains_key(h) implies c.layer3.handles()[h].stream != id by {
                assert(a.layer3.handles().contains_key(h));
            }
        }
        let l3_handle: L3::Handle = match self.layer3.open_stream(id, OpenMode::Write) {
            Ok(handle) => handle,
            Err(e) => {
                return Err(e);
            },
        };
        proof {
            lemma_open_kept(
                c.open_streams@,
                c.world(),
                self.world(),
                self.next_handle_id,
            );
            assert(kept(c.layer3, self.layer3));
            Self::lemma_header_kept(c.layer3, self.layer3);
            assert forall|k: u64| #[trigger] self.open_streams@.contains_key(k) implies
                self.open_streams@[k].l3_handle != l3_handle by {
                assert(c.open_streams@.contains_key(k));
            }
            assert(left_open(
                a.world().handles,
                self.world().handles,
                id,
                OpenMode::Write,
            )) by {
                assert(self.world().handles == a.world().handles.insert(
                    l3_handle,
                    OpenState { stream: id, mode: OpenMode::Write },
                ));
            }
        }
        self.add_handle(id, l3_handle, OpenMode::Write)
    }

    /// Opens a stream, with the head at its start.
    pub fn open_stream(&mut self, path: &str, mode: OpenMode) -> (r: Result<
        StreamHandle,
        SfsError,
    >)
        requires
            old(self).wf(),
        ensures
            final(self).faults() >= old(self).faults(),
            final(self).handles_left() == old(self).handles_left() - if r is Ok {
                1int
            } else {
                0
            },
            r is Ok ==> final(self).faults() == old(self).faults(),
            final(self).store_faults() == old(self).store_faults() && old(self).numbers_left()
                ==> final(self).faults() == old(self).faults(),
            final(self).faults() == old(self).faults() ==> {
                let out = stream_found(old(self).world(), text_bytes(path), mode);
                &&& follows(out, old(self).world(), final(self).world(), r)
                &&& tells_path(old(self).world(), OpenMode::Read, leaf_of(text_bytes(path)), path@, r)
                &&& !(out is Done) ==> final(self).open_views() == old(self).open_views()
                &&& out matches Outcome::Done(id) ==> {
                    let w0 = old(self).world();
                    let w1 = final(self).world();
                    let num = r->Ok_0.num();
                    &&& left_open(w0.handles, w1.handles, id, mode)
                    &&& w1 == (World { handles: w1.handles, ..w0 })
                    &&& !old(self).open_views().contains_key(num)
                    &&& final(self).open_views() == old(self).open_views().insert(
                        num,
                        OpenView { stream: id, position: 0, mode },
                    )
                }
                &&& final(self).wf()
                &&& old(self).tidy() ==> final(self).tidy()
            },
    {
        let bytes: &[u8] = path.as_bytes();
        let ghost a = *self;
        proof {
            self.lemma_live();
            assert(with_streams(a.world(), a.world().streams) =~= a.world());
            assert(untouched(a.world(), a.world().streams));
        }
        let writes: bool = matches!(mode, OpenMode::Write);
        match self.check_path(bytes, writes, "stream path cannot be empty") {
            Ok(_) => {},
            Err(e) => {
                return Err(e);
            },
        }
        let (dirs, leaf) = split_parent_leaf(bytes);
        let parent_id: u64 = match resolve_dir_stream_id(
            &mut self.layer3,
            self.root_dir_stream_id,
            &dirs,
            Ghost(self.mode),
        ) {
            Ok(id) => id,
            Err(e) => {
                proof {
                    if self.layer3.faults() == old(self).layer3.faults() {
                        Self::lemma_after_walk(a, *self, dirs_of(bytes@), Err(e));
                        lemma_walk(a.world(), a.world().root, dirs_of(bytes@));
                    }
                }
                return Err(e);
            },
        };
        let ghost b = *self;
        proof {
            Self::lemma_after_walk(a, b, dirs_of(bytes@), Ok(parent_id));
        }
        let (handle, entries) = match open_dir(
            &mut self.layer3,
            parent_id,
            OpenMode::Read,
            Ghost(self.root_dir_stream_id),
            Ghost(self.mode),
        ) {
            Ok(found) => found,
            Err(e) => {
                proof {
                    if self.layer3.faults() == old(self).layer3.faults() {
                        let out: Outcome<Map<u64, StreamState>> = match read_dir(
                            a.world(),
                            parent_id,
                            OpenMode::Read,
                        ) {
                            DirState::Refused(kind) => Outcome::Refused(kind),
                            _ => Outcome::Done(a.world().streams),
                        };
                        self.lemma_after_change(a, b, out, Err(e));
                    }
                }
                return Err(e);
            },
        };
        match self.layer3.close_stream(handle) {
            Ok(_) => {},
            Err(e) => {
                return Err(e);
            },
        }
        let ghost c = *self;
        proof {
            assert(self.layer3.handles() =~= a.layer3.handles());
            assert(self.world() =~= a.world());
            self.lemma_after_change(a, b, Outcome::Done(a.world().streams), Ok(()));
            c.layer3.lemma_wf();
            if a.world().streams.contains_key(u64::MAX) {
                lemma_pow256_values();
                crate::bytes::lemma_pow256_monotone(c.layer3.iwidth(), 8);
            }
        }
        let stream_id: u64 = match find_entry(&entries, leaf.as_slice()) {
            Some(id) => id,
            None => {
                return Err(SfsError::NotFound(path.to_owned()));
            },
        };
        let l3_handle: L3::Handle = match self.layer3.open_stream(stream_id, mode) {
            Ok(handle) => handle,
            Err(e) => {
                proof {
                    if self.layer3.faults() == old(self).layer3.faults() {
                        assert(self.world() =~= c.world());
                        assert(kept(c.layer3, self.layer3));
                        self.lemma_after_change(c, c, Outcome::Done(c.world().streams), Ok(()));
                    }
                }
                return Err(e);
            },
        };
        proof {
            lemma_open_kept(
                c.open_streams@,
                c.world(),
                self.world(),
                self.next_handle_id,
            );
            assert(kept(c.layer3, self.layer3));
            Self::lemma_header_kept(c.layer3, self.layer3);
            assert forall|k: u64| #[trigger] self.open_streams@.contains_key(k) implies
                self.open_streams@[k].l3_handle != l3_handle by {
                assert(c.open_streams@.contains_key(k));
            }
            assert(left_open(a.world().handles, self.world().handles, stream_id, mode)) by {
                assert(self.world().handles == a.world().handles.insert(
                    l3_handle,
                    OpenState { stream: stream_id, mode },
                ));
            }
        }
        self.add_handle(stream_id, l3_handle, mode)
    }

    /// Closes a stream.
    pub fn close_stream(&mut self, handle: StreamHandle) -> (r: Result<(), SfsError>)
        requires
            old(self).wf(),
        ensures
            final(self).faults() >= old(self).faults(),
            final(self).handles_left() == old(self).handles_left(),
            final(self).store_faults() >= old(self).store_faults(),
            r is Ok ==> final(self).faults() == old(self).faults(),
            !(old(self).open_views().contains_key(handle.num()) && old(
                self,
            ).open_views()[handle.num()].mode is Write) ==> final(self).faults() == old(
                self,
            ).faults(),
            final(self).faults() == old(self).faults() ==> final(self).store_faults() == old(
                self,
            ).store_faults(),
            final(self).store_faults() == old(self).store_faults() ==> final(self).faults() == old(
                self,
            ).faults(),
            final(self).faults() == old(self).faults() ==> {
                let w0 = old(self).world();
                let w1 = final(self).world();
                let open = old(self).open_views();
                &&& final(self).wf()
                &&& old(self).tidy() ==> final(self).tidy()
                &&& r is Ok <==> open.contains_key(handle.num())
                &&& r matches Err(e) ==> e is NotFound && w1 == w0 && final(self).open_views()
                    == open
                &&& r is Ok ==> {
                    let view = open[handle.num()];
                    &&& final(self).open_views() == open.remove(handle.num())
                    &&& w1 == (World { handles: w1.handles, ..w0 })
                    &&& left_open(w1.handles, w0.handles, view.stream, view.mode)
                }
            },
    {
        let ghost a = *self;
        proof {
            self.lemma_live();
        }
        let l3_handle: L3::Handle = match self.open_streams.get(&handle.id()) {
            Some(info) => info.l3_handle,
            None => {
                return Err(SfsError::NotFound("invalid stream handle".to_owned()));
            },
        };
        let ghost k = handle.num();
        let ghost info = self.open_streams@[k];
        self.open_streams.remove(&handle.id());
        proof {
            assert(self.open_streams@ =~= a.open_streams@.remove(k));
        }
        match self.layer3.close_stream(l3_handle) {
            Ok(_) => {},
            Err(e) => {
                return Err(e);
            },
        }
        proof {
            assert(kept(a.layer3, self.layer3));
            Self::lemma_header_kept(a.layer3, self.layer3);
            let w0 = a.world();
            let w1 = self.world();
            assert(w0.handles =~= w1.handles.insert(
                l3_handle,
                OpenState { stream: info.stream_id, mode: info.mode },
            ));
            assert(left_open(w1.handles, w0.handles, info.stream_id, info.mode));
            assert forall|j: u64| #[trigger] self.open_streams@.contains_key(j) implies j
                < self.next_handle_id && w1.handles.contains_key(self.open_streams@[j].l3_handle)
                && w1.handles[self.open_streams@[j].l3_handle] == (OpenState {
                stream: self.open_streams@[j].stream_id,
                mode: self.open_streams@[j].mode,
            }) && self.open_streams@[j].position
                <= w1.streams[self.open_streams@[j].stream_id].data.len() by {
                assert(a.open_streams@.contains_key(j));
                assert(a.open_streams@.contains_key(k));
            }
            assert(self.open_views() =~= a.open_views().remove(k));
        }
        Ok(())
    }

    /// A stream was changed through its writer, and the head was set.
    proof fn lemma_after_writing(a: Self, b: Self, k: u64, s1: StreamState, position: u64)
        requires
            a.wf(),
            a.open_streams@.contains_key(k),
            a.open_streams@[k].mode is Write,
            b.layer3.wf(),
            kept(a.layer3, b.layer3),
            b.layer3.handles() == a.layer3.handles(),
            b.layer3.streams() == a.layer3.streams().insert(a.open_streams@[k].stream_id, s1),
            b.root_dir_stream_id == a.root_dir_stream_id,
            b.mode == a.mode,
            b.next_handle_id == a.next_handle_id,
            b.open_streams@ == a.open_streams@.insert(
                k,
                OpenStreamInfo {
                    stream_id: a.open_streams@[k].stream_id,
                    l3_handle: a.open_streams@[k].l3_handle,
                    position,
                    mode: a.open_streams@[k].mode,
                },
            ),
            position <= s1.data.len(),
        ensures
            b.wf(),
            b.world() == with_streams(
                a.world(),
                a.world().streams.insert(a.open_views()[k].stream, s1),
            ),
            b.open_views() == a.open_views().insert(
                k,
                OpenView {
                    stream: a.open_views()[k].stream,
                    position: position as nat,
                    mode: a.open_views()[k].mode,
                },
            ),
    {
        let id = a.open_streams@[k].stream_id;
        a.layer3.lemma_wf();
        Self::lemma_header_kept(a.layer3, b.layer3);
        let handles = a.layer3.handles();
        assert forall|j: u64| #[trigger] b.open_streams@.contains_key(j) implies j
            < b.next_handle_id && handles.contains_key(b.open_streams@[j].l3_handle)
            && handles[b.open_streams@[j].l3_handle] == (OpenState {
            stream: b.open_streams@[j].stream_id,
            mode: b.open_streams@[j].mode,
        }) && b.open_streams@[j].position
            <= b.layer3.streams()[b.open_streams@[j].stream_id].data.len() by {
            assert(a.open_streams@.contains_key(j));
            if j != k {
                // The writer is the only one that has the stream open.
                let g = a.open_streams@[j].l3_handle;
                let h = a.open_streams@[k].l3_handle;
                assert(handles.contains_key(g) && handles.contains_key(h) && g != h);
                assert(a.open_streams@[j].stream_id != id);
            }
        }
        assert forall|i: u64, j: u64| #[trigger]
            b.open_streams@.contains_key(i) && #[trigger] b.open_streams@.contains_key(j) && i
                != j implies b.open_streams@[i].l3_handle != b.open_streams@[j].l3_handle by {
            assert(a.open_streams@.contains_key(i) && a.open_streams@.contains_key(j));
        }
        assert(b.open_views() =~= a.open_views().insert(
            k,
            OpenView {
                stream: a.open_views()[k].stream,
                position: position as nat,
                mode: a.open_views()[k].mode,
            },
        ));
    }

    /// Sets the head of an open stream.
    fn set_position(&mut self, handle: &StreamHandle, position: u64)
        requires
            old(self).open_streams@.contains_key(handle.num()),
        ensures
            final(self).layer3 == old(self).layer3,
            final(self).root_dir_stream_id == old(self).root_dir_stream_id,
            final(self).mode == old(self).mode,
            final(self).next_handle_id == old(self).next_handle_id,
            final(self).exhausted == old(self).exhausted,
            final(self).open_streams@ == old(self).open_streams@.insert(
                handle.num(),
                OpenStreamInfo {
                    stream_id: old(self).open_streams@[handle.num()].stream_id,
                    l3_handle: old(self).open_streams@[handle.num()].l3_handle,
                    position,
                    mode: old(self).open_streams@[handle.num()].mode,
                },
            ),
    {
        let ghost infos = self.open_streams@;
        match self.open_streams.remove(&handle.id()) {
            Some(info) => {
                self.open_streams.insert(
                    handle.id(),
                    OpenStreamInfo {
                        stream_id: info.stream_id,
                        l3_handle: info.l3_handle,
                        position,
                        mode: info.mode,
                    },
                );
                proof {
                    assert(self.open_streams@ =~= infos.insert(
                        handle.num(),
                        OpenStreamInfo {
                            stream_id: info.stream_id,
                            l3_handle: info.l3_handle,
                            position,
                            mode: info.mode,
                        },
                    ));
                }
            },
            None => {},
        }
    }

    /// The head of a stream was moved, and nothing else was changed.
    proof fn lemma_after_moving(a: Self, b: Self, k: u64, position: u64)
        requires
            a.wf(),
            a.open_streams@.contains_key(k),
            b.layer3.wf(),
            kept(a.layer3, b.layer3),
            b.layer3.handles() == a.layer3.handles(),
            b.layer3.streams() == a.layer3.streams(),
            b.root_dir_stream_id == a.root_dir_stream_id,
            b.mode == a.mode,
            b.next_handle_id == a.next_handle_id,
            b.open_streams@ == a.open_streams@.insert(
                k,
                OpenStreamInfo {
                    stream_id: a.open_streams@[k].stream_id,
                    l3_handle: a.open_streams@[k].l3_handle,
                    position,
                    mode: a.open_streams@[k].mode,
                },
            ),
            position <= a.layer3.streams()[a.open_streams@[k].stream_id].data.len(),
        ensures
            b.wf(),
            b.world() == a.world(),
            b.open_views() == a.open_views().insert(
                k,
                OpenView {
                    stream: a.open_views()[k].stream,
                    position: position as nat,
                    mode: a.open_views()[k].mode,
                },
            ),
    {
        Self::lemma_header_kept(a.layer3, b.layer3);
        assert forall|j: u64| #[trigger] b.open_streams@.contains_key(j) implies j
            < b.next_handle_id && b.layer3.handles().contains_key(b.open_streams@[j].l3_handle)
            && b.layer3.handles()[b.open_streams@[j].l3_handle] == (OpenState {
            stream: b.open_streams@[j].stream_id,
            mode: b.open_streams@[j].mode,
        }) && b.open_streams@[j].position
            <= b.layer3.streams()[b.open_streams@[j].stream_id].data.len() by {
            assert(a.open_streams@.contains_key(j));
        }
        assert forall|i: u64, j: u64| #[trigger]
            b.open_streams@.contains_key(i) && #[trigger] b.open_streams@.contains_key(j) && i
                != j implies b.open_streams@[i].l3_handle != b.open_streams@[j].l3_handle by {
            assert(a.open_streams@.contains_key(i) && a.open_streams@.contains_key(j));
        }
        assert(b.open_views() =~= a.open_views().insert(
            k,
            OpenView {
                stream: a.open_views()[k].stream,
                position: position as nat,
                mode: a.open_views()[k].mode,
            },
        ));
    }

    /// Reads from the head on, as far as the stream and `buf` reach, and moves
    /// the head behind what was read.
    pub fn read(&mut self, handle: &StreamHandle, buf: &mut [u8]) -> (r: Result<usize, SfsError>)
        requires
            old(self).wf(),
        ensures
            final(self).faults() >= old(self).faults(),
            L3::reads_always() ==> final(self).faults() == old(self).faults(),
            final(self).handles_left() == old(self).handles_left(),
            r is Ok ==> final(self).faults() == old(self).faults(),
            final(self).store_faults() == old(self).store_faults() ==> final(self).faults() == old(
                self,
            ).faults(),
            final(buf)@.len() == old(buf)@.len(),
            final(self).faults() == old(self).faults() ==> {
                let open = old(self).open_views();
                &&& final(self).wf()
                &&& old(self).tidy() ==> final(self).tidy()
                &&& final(self).world() == old(self).world()
                &&& r is Ok <==> open.contains_key(handle.num())
                &&& r matches Err(e) ==> e is NotFound && final(self).open_views() == open
                    && final(buf)@ == old(buf)@
                &&& r matches Ok(n) ==> {
                    let view = open[handle.num()];
                    let data = old(self).world().streams[view.stream].data;
                    &&& n == read_count(
                        data.len() as int,
                        view.position as int,
                        old(buf)@.len() as int,
                    )
                    &&& final(buf)@ == after_read(data, view.position as int, old(buf)@)
                    &&& final(self).open_views() == open.insert(
                        handle.num(),
                        OpenView {
                            stream: view.stream,
                            position: view.position + n as nat,
                            mode: view.mode,
                        },
                    )
                }
            },
    {
        let ghost a = *self;
        proof {
            self.lemma_live();
        }
        let (l3_handle, position, mode): (L3::Handle, u64, OpenMode) = match self.open_streams.get(
            &handle.id(),
        ) {
            Some(info) => (info.l3_handle, info.position, info.mode),
            None => {
                return Err(SfsError::NotFound("invalid stream handle".to_owned()));
            },
        };
        let n: usize = match self.layer3.read(&l3_handle, position, buf) {
            Ok(n) => n,
            Err(e) => {
                return Err(e);
            },
        };
        proof {
            self.layer3.lemma_wf();
            let id = a.open_streams@[handle.num()].stream_id;
            assert(self.layer3.handles().contains_key(l3_handle));
            assert(self.layer3.streams().contains_key(id));
        }
        self.set_position(handle, position + n as u64);
        proof {
            assert(kept(a.layer3, self.layer3));
            Self::lemma_after_moving(a, *self, handle.num(), (position + n) as u64);
        }
        Ok(n)
    }

    /// Writes at the head, and moves it behind what was written. The stream
    /// grows where it has to.
    pub fn write(&mut self, handle: &StreamHandle, buf: &[u8]) -> (r: Result<usize, SfsError>)
        requires
            old(self).wf(),
            old(self).open_views().contains_key(handle.num()) ==> old(
                self,
            ).open_views()[handle.num()].position + buf@.len() <= u64::MAX,
        ensures
            final(self).faults() >= old(self).faults(),
            final(self).handles_left() == old(self).handles_left(),
            r is Ok ==> final(self).faults() == old(self).faults(),
            final(self).store_faults() == old(self).store_faults() ==> final(self).faults() == old(
                self,
            ).faults(),
            final(self).faults() == old(self).faults() ==> {
                let w0 = old(self).world();
                let open = old(self).open_views();
                let view = open[handle.num()];
                let s0 = w0.streams[view.stream];
                let unit = unit_in(w0, s0.compressed);
                let end = view.position + buf@.len();
                let large = buf@.len() > 0 && too_large(s0.reserved, end, unit);
                &&& final(self).wf()
                &&& old(self).tidy() ==> final(self).tidy()
                &&& r is Ok <==> open.contains_key(handle.num()) && view.mode is Write && !large
                &&& r matches Err(e) ==> {
                    &&& final(self).world() == w0
                    &&& final(self).open_views() == open
                    &&& !open.contains_key(handle.num()) ==> e is NotFound
                    &&& open.contains_key(handle.num()) && view.mode is Read ==> e is LockConflict
                    &&& open.contains_key(handle.num()) && view.mode is Write ==> e is IoError
                }
                &&& r matches Ok(n) ==> {
                    let s1 = StreamState {
                        data: spliced(s0.data, view.position as int, buf@),
                        reserved: if buf@.len() == 0 {
                            s0.reserved
                        } else {
                            grown_capacity(s0.reserved, end, unit)
                        },
                        compressed: s0.compressed,
                    };
                    &&& n == buf@.len()
                    &&& final(self).world() == with_streams(w0, w0.streams.insert(view.stream, s1))
                    &&& final(self).open_views() == open.insert(
                        handle.num(),
                        OpenView { stream: view.stream, position: end, mode: view.mode },
                    )
                }
            },
    {
        let ghost a = *self;
        proof {
            self.lemma_live();
        }
        let (l3_handle, position, mode): (L3::Handle, u64, OpenMode) = match self.open_streams.get(
            &handle.id(),
        ) {
            Some(info) => (info.l3_handle, info.position, info.mode),
            None => {
                return Err(SfsError::NotFound("invalid stream handle".to_owned()));
            },
        };
        if !matches!(mode, OpenMode::Write) {
            return Err(SfsError::LockConflict("stream is not opened for writing".to_owned()));
        }
        let ghost id = a.open_streams@[handle.num()].stream_id;
        let ghost s0 = a.layer3.streams()[id];
        let n: usize = match self.layer3.write(&l3_handle, position, buf) {
            Ok(n) => n,
            Err(e) => {
                proof {
                    if self.layer3.faults() == old(self).layer3.faults() {
                        assert(kept(a.layer3, self.layer3));
                        assert(self.open_streams@ =~= a.open_streams@.insert(
                            handle.num(),
                            OpenStreamInfo {
                                stream_id: a.open_streams@[handle.num()].stream_id,
                                l3_handle: a.open_streams@[handle.num()].l3_handle,
                                position,
                                mode: a.open_streams@[handle.num()].mode,
                            },
                        ));
                        Self::lemma_after_moving(a, *self, handle.num(), position);
                        assert(self.open_views() =~= a.open_views());
                    }
                }
                return Err(e);
            },
        };
        proof {
            let s1 = self.layer3.streams()[id];
            assert(s1.data =~= spliced(s0.data, position as int, buf@));
        }
        self.set_position(handle, position + n as u64);
        proof {
            assert(kept(a.layer3, self.layer3));
            let s1 = self.layer3.streams()[id];
            Self::lemma_after_writing(a, *self, handle.num(), s1, (position + n) as u64);
        }
        Ok(n)
    }

    /// Moves the head. It cannot be moved behind the end of the stream.
    pub fn seek(&mut self, handle: &StreamHandle, pos: u64) -> (r: Result<(), SfsError>)
        requires
            old(self).wf(),
        ensures
            final(self).faults() == old(self).faults(),
            final(self).store_faults() == old(self).store_faults(),
            final(self).wf(),
            final(self).tidy() == old(self).tidy(),
            final(self).world() == old(self).world(),
            ({
                let open = old(self).open_views();
                let view = open[handle.num()];
                let len = old(self).world().streams[view.stream].data.len();
                &&& r is Ok <==> open.contains_key(handle.num()) && pos <= len
                &&& r matches Err(e) ==> {
                    &&& final(self).open_views() == open
                    &&& !open.contains_key(handle.num()) ==> e is NotFound
                    &&& open.contains_key(handle.num()) ==> e is SeekOutOfBounds
                }
                &&& r is Ok ==> final(self).open_views() == open.insert(
                    handle.num(),
                    OpenView { stream: view.stream, position: pos as nat, mode: view.mode },
                )
            }),
    {
        let ghost a = *self;
        let l3_handle: L3::Handle = match self.open_streams.get(&handle.id()) {
            Some(info) => info.l3_handle,
            None => {
                return Err(SfsError::NotFound("invalid stream handle".to_owned()));
            },
        };
        let len: u64 = match self.layer3.stream_length(&l3_handle) {
            Ok(len) => len,
            Err(e) => {
                return Err(e);
            },
        };
        if pos > len {
            return Err(
                SfsError::SeekOutOfBounds(
                    text_num(
                        text_num("position ", pos, " exceeds stream length ").as_str(),
                        len,
                        "",
                    ),
                ),
            );
        }
        self.set_position(handle, pos);
        proof {
            assert(kept(a.layer3, self.layer3));
            Self::lemma_after_moving(a, *self, handle.num(), pos);
        }
        Ok(())
    }

    /// Where the head stands.
    pub fn tell(&self, handle: &StreamHandle) -> (r: Result<u64, SfsError>)
        ensures
            match r {
                Ok(pos) => self.open_views().contains_key(handle.num()) && pos
                    == self.open_views()[handle.num()].position,
                Err(e) => !self.open_views().contains_key(handle.num()) && e is NotFound,
            },
    {
        match self.open_streams.get(&handle.id()) {
            Some(info) => Ok(info.position),
            None => Err(SfsError::NotFound("invalid stream handle".to_owned())),
        }
    }

    /// The length of a stream in bytes.
    pub fn stream_length(&self, handle: &StreamHandle) -> (r: Result<u64, SfsError>)
        requires
            self.wf(),
        ensures
            match r {
                Ok(len) => self.open_views().contains_key(handle.num()) && len
                    == self.world().streams[self.open_views()[handle.num()].stream].data.len(),
                Err(e) => !self.open_views().contains_key(handle.num()) && e is NotFound,
            },
    {
        let l3_handle: L3::Handle = match self.open_streams.get(&handle.id()) {
            Some(info) => info.l3_handle,
            None => {
                return Err(SfsError::NotFound("invalid stream handle".to_owned()));
            },
        };
        self.layer3.stream_length(&l3_handle)
    }

    /// Cuts a stream down to `new_len` bytes, and moves the head to the end
    /// where it stood behind it. A shorter stream stays as it is.
    pub fn truncate(&mut self, handle: &StreamHandle, new_len: u64) -> (r: Result<(), SfsError>)
        requires
            old(self).wf(),
        ensures
            final(self).faults() >= old(self).faults(),
            final(self).handles_left() == old(self).handles_left(),
            r is Ok ==> final(self).faults() == old(self).faults(),
            final(self).store_faults() == old(self).store_faults() ==> final(self).faults() == old(
                self,
            ).faults(),
            final(self).faults() == old(self).faults() ==> {
                let w0 = old(self).world();
                let open = old(self).open_views();
                let view = open[handle.num()];
                let s0 = w0.streams[view.stream];
                &&& final(self).wf()
                &&& old(self).tidy() ==> final(self).tidy()
                &&& r is Ok <==> open.contains_key(handle.num()) && view.mode is Write
                &&& r matches Err(e) ==> {
                    &&& final(self).world() == w0
                    &&& final(self).open_views() == open
                    &&& !open.contains_key(handle.num()) ==> e is NotFound
                    &&& open.contains_key(handle.num()) ==> e is LockConflict
                }
                &&& r is Ok ==> {
                    &&& final(self).world() == with_streams(
                        w0,
                        w0.streams.insert(
                            view.stream,
                            cut(s0, new_len as nat, unit_in(w0, s0.compressed)),
                        ),
                    )
                    &&& final(self).open_views() == open.insert(
                        handle.num(),
                        OpenView {
                            stream: view.stream,
                            position: if view.position > new_len {
                                new_len as nat
                            } else {
                                view.position
                            },
                            mode: view.mode,
                        },
                    )
                }
            },
    {
        let ghost a = *self;
        proof {
            self.lemma_live();
        }
        let (l3_handle, position, mode): (L3::Handle, u64, OpenMode) = match self.open_streams.get(
            &handle.id(),
        ) {
            Some(info) => (info.l3_handle, info.position, info.mode),
            None => {
                return Err(SfsError::NotFound("invalid stream handle".to_owned()));
            },
        };
        if !matches!(mode, OpenMode::Write) {
            return Err(SfsError::LockConflict("stream is not opened for writing".to_owned()));
        }
        let ghost id = a.open_streams@[handle.num()].stream_id;
        match self.layer3.truncate(&l3_handle, new_len) {
            Ok(_) => {},
            Err(e) => {
                return Err(e);
            },
        }
        let new_position: u64 = if position > new_len {
            new_len
        } else {
            position
        };
        self.set_position(handle, new_position);
        proof {
            assert(kept(a.layer3, self.layer3));
            let s1 = self.layer3.streams()[id];
            Self::lemma_after_writing(a, *self, handle.num(), s1, new_position);
        }
        Ok(())
    }

    /// Makes room for `n_bytes` bytes, without changing what the stream holds or
    /// where the head stands.
    pub fn reserve(&mut self, handle: &StreamHandle, n_bytes: u64) -> (r: Result<(), SfsError>)
        requires
            old(self).wf(),
        ensures
            final(self).faults() >= old(self).faults(),
            final(self).handles_left() == old(self).handles_left(),
            r is Ok ==> final(self).faults() == old(self).faults(),
            final(self).store_faults() == old(self).store_faults() ==> final(self).faults() == old(
                self,
            ).faults(),
            final(self).faults() == old(self).faults() ==> {
                let w0 = old(self).world();
                let open = old(self).open_views();
                let view = open[handle.num()];
                let s0 = w0.streams[view.stream];
                let unit = unit_in(w0, s0.compressed);
                &&& final(self).wf()
                &&& old(self).tidy() ==> final(self).tidy()
                &&& final(self).open_views() == open
                &&& r is Ok <==> open.contains_key(handle.num()) && view.mode is Write && n_bytes
                    >= s0.data.len() && !too_large(s0.reserved, n_bytes as nat, unit)
                &&& r matches Err(e) ==> {
                    &&& final(self).world() == w0
                    &&& !open.contains_key(handle.num()) ==> e is NotFound
                    &&& open.contains_key(handle.num()) && view.mode is Read ==> e is LockConflict
                    &&& open.contains_key(handle.num()) && view.mode is Write ==> e is IoError
                }
                &&& r is Ok ==> final(self).world() == with_streams(
                    w0,
                    w0.streams.insert(
                        view.stream,
                        StreamState {
                            data: s0.data,
                            reserved: grown_capacity(s0.reserved, n_bytes as nat, unit),
                            compressed: s0.compressed,
                        },
                    ),
                )
            },
    {
        let ghost a = *self;
        proof {
            self.lemma_live();
        }
        let (l3_handle, position, mode): (L3::Handle, u64, OpenMode) = match self.open_streams.get(
            &handle.id(),
        ) {
            Some(info) => (info.l3_handle, info.position, info.mode),
            None => {
                return Err(SfsError::NotFound("invalid stream handle".to_owned()));
            },
        };
        if !matches!(mode, OpenMode::Write) {
            return Err(SfsError::LockConflict("stream is not opened for writing".to_owned()));
        }
        let ghost id = a.open_streams@[handle.num()].stream_id;
        let r = self.layer3.reserve(&l3_handle, n_bytes);
        proof {
            if self.layer3.faults() == old(self).layer3.faults() {
                assert(kept(a.layer3, self.layer3));
                assert(self.open_streams@ =~= a.open_streams@.insert(
                    handle.num(),
                    OpenStreamInfo {
                        stream_id: a.open_streams@[handle.num()].stream_id,
                        l3_handle: a.open_streams@[handle.num()].l3_handle,
                        position,
                        mode: a.open_streams@[handle.num()].mode,
                    },
                ));
                if r is Ok {
                    let s1 = self.layer3.streams()[id];
                    Self::lemma_after_writing(a, *self, handle.num(), s1, position);
                } else {
                    Self::lemma_after_moving(a, *self, handle.num(), position);
                }
                assert(self.open_views() =~= a.open_views());
            }
        }
        r
    }

    /// The capacity that is kept for a stream, in bytes.
    pub fn stream_reserved(&self, handle: &StreamHandle) -> (r: Result<u64, SfsError>)
        requires
            self.wf(),
        ensures
            match r {
                Ok(n) => self.open_views().contains_key(handle.num()) && n
                    == self.world().streams[self.open_views()[handle.num()].stream].reserved,
                Err(e) => !self.open_views().contains_key(handle.num()) && e is NotFound,
            },
    {
        let l3_handle: L3::Handle = match self.open_streams.get(&handle.id()) {
            Some(info) => info.l3_handle,
            None => {
                return Err(SfsError::NotFound("invalid stream handle".to_owned()));
            },
        };
        self.layer3.stream_reserved(&l3_handle)
    }

    /// Whether a stream is compressed.
    pub fn is_stream_compressed(&self, handle: &StreamHandle) -> (r: Result<bool, SfsError>)
        requires
            self.wf(),
        ensures
            match r {
                Ok(c) => self.open_views().contains_key(handle.num()) && c
                    == self.world().streams[self.open_views()[handle.num()].stream].compressed,
                Err(e) => !self.open_views().contains_key(handle.num()) && e is NotFound,
            },
    {
        let l3_handle: L3::Handle = match self.open_streams.get(&handle.id()) {
            Some(info) => info.l3_handle,
            None => {
                return Err(SfsError::NotFound("invalid stream handle".to_owned()));
            },
        };
        self.layer3.is_stream_compressed(&l3_handle)
    }

    /// Gives a stream layer that holds nothing a root directory, and notes down in
    /// its header slot which stream that is. Gives the number of the stream.
    pub fn make_root(layer3: &mut L3) -> (r: Result<u64, SfsError>)
        requires
            old(layer3).wf(),
            old(layer3).streams() == Map::<u64, StreamState>::empty(),
            old(layer3).slots().len() > old(layer3).first_slot(),
            old(layer3).slots()[old(layer3).first_slot() as int].len() == L4_PAYLOAD_SIZE,
        ensures
            final(layer3).faults() >= old(layer3).faults(),
            r is Ok <==> final(layer3).faults() == old(layer3).faults(),
            r matches Ok(root) ==> {
                &&& root == 0
                &&& final(layer3).wf()
                &&& old(layer3).tidy() ==> final(layer3).tidy()
                &&& final(layer3).streams() == Map::<u64, StreamState>::empty().insert(
                    0,
                    empty_stream(false),
                )
                &&& final(layer3).handles() == old(layer3).handles()
                &&& final(layer3).iwidth() == old(layer3).iwidth()
                &&& final(layer3).unit(false) == old(layer3).unit(false)
                &&& final(layer3).unit(true) == old(layer3).unit(true)
                &&& final(layer3).compression() == old(layer3).compression()
                &&& final(layer3).first_slot() == old(layer3).first_slot()
                &&& final(layer3).slots().len() == old(layer3).slots().len()
                &&& is_l4_header(final(layer3).slots()[old(layer3).first_slot() as int])
                &&& l4_root(final(layer3).slots()[old(layer3).first_slot() as int]) == 0
            },
    {
        let ghost first = layer3.first_slot() as int;
        let ghost before = layer3.slots();
        proof {
            layer3.lemma_wf();
            crate::bytes::lemma_pow256_monotone(1, layer3.iwidth());
            crate::bytes::lemma_pow256_values();
            assert(!layer3.streams().contains_key(0));
        }
        let root_id: u64 = match layer3.create_stream(false) {
            Ok(id) => id,
            Err(e) => {
                return Err(e);
            },
        };
        proof {
            if root_id > 0 {
                assert(Map::<u64, StreamState>::empty().contains_key(0));
            }
            assert(before.skip(first)[0] == before[first]);
            assert(layer3.slots().skip(first)[0] == layer3.slots()[first]);
            law_l4_header_round_trip(root_id);
        }
        let l4_slot: HeaderSlotId = layer3.header_slot_for_upper(0);
        let l4_payload: Vec<u8> = serialize_header(root_id);
        match layer3.write_header_slot(l4_slot, l4_payload.as_slice()) {
            Ok(_) => {},
            Err(e) => {
                return Err(e);
            },
        }
        Ok(root_id)
    }

    /// Creates a new file system at `path`, with an empty root directory. All its
    /// streams are uncompressed.
    pub fn create(path: &str, block_index_width: u8, block_size_shift: u8) -> (r: Result<
        Self,
        SfsError,
    >)
        ensures
            r matches Ok(sfs) ==> {
                &&& sfs.wf()
                &&& sfs.tidy()
                &&& sfs.handles_left() == u64::MAX
                &&& sfs.open_views() == Map::<u64, OpenView>::empty()
                &&& sfs.world() == new_world::<L3::Handle>(block_index_width, block_size_shift, 0)
            },
            call_ensures(
                Self::create_with_vbss,
                (path, block_index_width, block_size_shift, 0u8),
                r,
            ),
    {
        Self::create_with_vbss(path, block_index_width, block_size_shift, 0)
    }

    /// Creates a new file system at `path`, with an empty root directory. Its
    /// streams can be compressed, in pieces of two to the power of `vbss` bytes,
    /// unless that is zero.
    pub fn create_with_vbss(
        path: &str,
        block_index_width: u8,
        block_size_shift: u8,
        vbss: u8,
    ) -> (r: Result<Self, SfsError>)
        ensures
            r matches Ok(sfs) ==> {
                &&& sfs.wf()
                &&& sfs.tidy()
                &&& sfs.handles_left() == u64::MAX
                &&& sfs.open_views() == Map::<u64, OpenView>::empty()
                &&& sfs.world() == new_world::<L3::Handle>(
                    block_index_width,
                    block_size_shift,
                    vbss,
                )
            },
            exists|sizes: VecDeque<u16>, made: Result<L3, SfsError>|
                {
                    &&& sizes@ == seq![L4_PAYLOAD_SIZE]
                    &&& #[trigger] call_ensures(
                        L3::create,
                        (path, block_index_width, block_size_shift, vbss, sizes),
                        made,
                    )
                    &&& match made {
                        Ok(layer3) => exists|begun: &mut L3, root: Result<u64, SfsError>|
                            {
                                &&& *begun == layer3
                                &&& #[trigger] call_ensures(Self::make_root, (begun,), root)
                                &&& match root {
                                    Ok(_) => r is Ok,
                                    Err(e) => r == Err::<Self, SfsError>(e),
                                }
                            },
                        Err(e) => r == Err::<Self, SfsError>(e),
                    }
                },
    {
        let mut sizes: VecDeque<u16> = VecDeque::new();
        sizes.push_back(L4_PAYLOAD_SIZE);
        let ghost upper = sizes@;
        let mut layer3: L3 = match L3::create(
            path,
            block_index_width,
            block_size_shift,
            vbss,
            sizes,
        ) {
            Ok(layer3) => layer3,
            Err(e) => {
                return Err(e);
            },
        };
        proof {
            assert(layer3.slots()[layer3.first_slot() + 0int] == zero_bytes(upper[0] as nat));
        }
        let root_id: u64 = match Self::make_root(&mut layer3) {
            Ok(id) => id,
            Err(e) => {
                return Err(e);
            },
        };
        let sfs = Sfs {
            layer3,
            root_dir_stream_id: root_id,
            mode: OpenMode::Write,
            next_handle_id: 0,
            open_streams: HashMap::new(),
            exhausted: Ghost(0),
        };
        proof {
            assert(sfs.open_streams@ =~= Map::<u64, OpenStreamInfo<L3::Handle>>::empty());
            assert(sfs.open_views() =~= Map::<u64, OpenView>::empty());
        }
        Ok(sfs)
    }

    /// Opens the file system at `path`. What it finds there may be damaged:
    /// `verify` tells.
    pub fn open(path: &str, mode: OpenMode) -> (r: Result<Self, SfsError>)
        ensures
            r matches Ok(sfs) ==> sfs.usable() && sfs.world().mode == mode && sfs.open_views()
                == Map::<u64, OpenView>::empty(),
            exists|found: Result<L3, SfsError>| #[trigger]
                call_ensures(L3::open, (path, mode), found) && match found {
                    Ok(layer3) => Self::opened(layer3, mode, r),
                    Err(e) => r == Err::<Self, SfsError>(e),
                },
    {
        match L3::open(path, mode) {
            Ok(layer3) => Self::open_on(layer3, mode),
            Err(e) => Err(e),
        }
    }

    /// What opening the file system that `layer3` holds gives.
    pub open spec fn opened(layer3: L3, mode: OpenMode, r: Result<Self, SfsError>) -> bool {
        let first = layer3.first_slot() as int;
        let slots = layer3.slots();
        &&& r is Ok <==> first < slots.len() && is_l4_header(slots[first])
        &&& r matches Err(e) ==> e is IoError
        &&& r matches Ok(sfs) ==> {
            &&& sfs.usable()
            &&& layer3.wf() ==> sfs.wf()
            &&& layer3.tidy() ==> sfs.tidy()
            &&& sfs.handles_left() == u64::MAX
            &&& sfs.store_faults() == layer3.faults()
            &&& sfs.faults() == layer3.faults()
            &&& sfs.world() == world_of(layer3, l4_root(slots[first]), mode)
            &&& sfs.open_views() == Map::<u64, OpenView>::empty()
        }
    }

    /// Opens the file system that a stream layer holds.
    pub fn open_on(layer3: L3, mode: OpenMode) -> (r: Result<Self, SfsError>)
        requires
            layer3.wf() || layer3.usable(),
        ensures
            Self::opened(layer3, mode, r),
    {
        proof {
            if layer3.wf() {
                layer3.lemma_wf();
            }
            layer3.lemma_usable();
        }
        let l4_slot: HeaderSlotId = layer3.header_slot_for_upper(0);
        let l4_data: Vec<u8> = match layer3.read_header_slot(l4_slot) {
            Ok(data) => data,
            Err(e) => {
                return Err(e);
            },
        };
        let root_id: u64 = match deserialize_header(l4_data.as_slice()) {
            Ok(id) => id,
            Err(e) => {
                return Err(e);
            },
        };
        let sfs = Sfs {
            layer3,
            root_dir_stream_id: root_id,
            mode,
            next_handle_id: 0,
            open_streams: HashMap::new(),
            exhausted: Ghost(0),
        };
        proof {
            assert(sfs.open_streams@ =~= Map::<u64, OpenStreamInfo<L3::Handle>>::empty());
            assert(sfs.open_views() =~= Map::<u64, OpenView>::empty());
        }
        Ok(sfs)
    }

    /// What is stored is in order, and the streams that it holds are those that
    /// `claimed` names.
    pub closed spec fn store_intact(&self, claimed: Seq<u64>) -> bool {
        self.layer3.intact(claimed)
    }

    /// The streams that are not compressed and can be read as a whole, as they
    /// are stored.
    pub closed spec fn stored(&self) -> Map<u64, StreamState> {
        self.layer3.stored()
    }

    /// The file system is intact as it is stored: its directories can be read,
    /// they name every stream once and no other, and what is stored is in order.
    pub open spec fn intact(&self) -> bool {
        let wd = self.world();
        exists|ids: Seq<u64>| #[trigger]
            tree_names(self.stored(), wd.width, wd.root, ids) && self.store_intact(ids)
    }

    /// No stream is open for writing.
    pub open spec fn only_readers(&self) -> bool {
        forall|h: L3::Handle| #[trigger]
            self.world().handles.contains_key(h) ==> self.world().handles[h].mode is Read
    }

    proof fn lemma_still_intact(a: Self, b: Self)
        requires
            b.stored() == a.stored(),
            b.world().width == a.world().width,
            b.world().root == a.world().root,
            forall|c: Seq<u64>| #[trigger] b.layer3.intact(c) == a.layer3.intact(c),
        ensures
            b.intact() == a.intact(),
    {
        let wd = a.world();
        if a.intact() {
            let c = choose|c: Seq<u64>| #[trigger]
                tree_names(a.stored(), wd.width, wd.root, c) && a.store_intact(c);
            assert(b.layer3.intact(c) == a.layer3.intact(c));
            assert(tree_names(b.stored(), wd.width, wd.root, c) && b.store_intact(c));
        }
        if b.intact() {
            let c = choose|c: Seq<u64>| #[trigger]
                tree_names(b.stored(), wd.width, wd.root, c) && b.store_intact(c);
            assert(b.layer3.intact(c) == a.layer3.intact(c));
            assert(tree_names(a.stored(), wd.width, wd.root, c) && a.store_intact(c));
        }
    }

    /// Checks the directories and all that is stored, damaged or not. There is
    /// something to report unless the file system is intact, or where something
    /// could not be read. Where the storage is in order and the directories can be
    /// read, every stream is reported that they name and that is not there, and
    /// every stream that is there and that they do not name.
    pub fn verify(&mut self) -> (r: Result<Vec<String>, SfsError>)
        requires
            old(self).wf() || old(self).usable(),
        ensures
            final(self).wf() == old(self).wf(),
            final(self).usable() == old(self).usable(),
            final(self).tidy() == old(self).tidy(),
            final(self).world() == old(self).world(),
            final(self).open_views() == old(self).open_views(),
            final(self).stored() == old(self).stored(),
            final(self).intact() == old(self).intact(),
            final(self).faults() >= old(self).faults(),
            final(self).handles_left() == old(self).handles_left(),
            final(self).store_faults() == old(self).store_faults() ==> final(self).faults() == old(
                self,
            ).faults(),
            L3::reads_always() ==> final(self).faults() == old(self).faults(),
            r is Err ==> final(self).faults() > old(self).faults(),
            r matches Ok(issues) ==> if final(self).faults() == old(self).faults() {
                &&& issues@.len() == 0 <==> old(self).intact()
                &&& old(self).wf() ==> forall|ids: Seq<u64>, held: Seq<u64>|
                    #[trigger] tree_names(
                        old(self).stored(),
                        old(self).world().width,
                        old(self).world().root,
                        ids,
                    ) && #[trigger] old(self).store_intact(held) ==> tells_apart(
                        issues@,
                        ids,
                        old(self).world().streams.dom(),
                    )
            } else {
                issues@.len() > 0
            },
    {
        let ghost wd = self.world();
        let ghost stored = self.stored();
        let root: u64 = self.root_dir_stream_id;
        let (ids, mut issues) = collect_stream_ids(&mut self.layer3, root);
        let ghost n = issues@.len();
        let ghost first = issues@;
        let ghost mut last: Seq<String> = Seq::empty();
        match self.layer3.verify(ids.as_slice()) {
            Ok(found) => {
                let mut found = found;
                proof {
                    last = found@;
                }
                issues.append(&mut found);
            },
            Err(e) => {
                proof {
                    Self::lemma_still_intact(*old(self), *self);
                }
                return Err(e);
            },
        }
        proof {
            Self::lemma_still_intact(*old(self), *self);
            assert(self.layer3.slots() == old(self).layer3.slots());
            if self.faults() == old(self).faults() {
                assert(issues@ =~= first + last + Seq::<String>::empty());
                if old(self).wf() {
                    lemma_more_issues(
                        last,
                        first,
                        Seq::empty(),
                        ids@,
                        old(self).world().streams.dom(),
                    );
                    assert forall|names: Seq<u64>, held: Seq<u64>|
                        #[trigger] tree_names(stored, wd.width, wd.root, names)
                            && #[trigger] old(self).store_intact(held) implies tells_apart(
                        issues@,
                        names,
                        wd.streams.dom(),
                    ) by {
                        assert(old(self).layer3.intact(held));
                        lemma_names_unique(stored, wd.width, wd.root, names, ids@);
                    }
                }
                if issues@.len() == 0 {
                    assert(old(self).layer3.intact(ids@));
                    assert(tree_names(stored, wd.width, wd.root, ids@));
                }
                if old(self).intact() {
                    let c = choose|c: Seq<u64>| #[trigger]
                        tree_names(stored, wd.width, wd.root, c) && old(self).store_intact(c);
                    assert(old(self).layer3.intact(c));
                    if n == 0 {
                        lemma_names_unique(stored, wd.width, wd.root, c, ids@);
                    }
                }
            }
        }
        Ok(issues)
    }

    /// Checks the directories and all that is stored, like `verify`, and beyond that
    /// follows every stream to its last block. Where nothing is found amiss and no
    /// stream is open, the file system is consistent from then on, whatever it was
    /// opened on.
    pub fn examine(&mut self) -> (r: Result<bool, SfsError>)
        requires
            old(self).wf() || old(self).usable(),
        ensures
            final(self).usable() == old(self).usable(),
            final(self).world() == (World {
                streams: final(self).world().streams,
                ..old(self).world()
            }),
            final(self).open_views() == old(self).open_views(),
            final(self).stored() == old(self).stored(),
            final(self).intact() == old(self).intact(),
            final(self).handles_left() == old(self).handles_left(),
            final(self).faults() >= old(self).faults(),
            final(self).store_faults() == old(self).store_faults() ==> final(self).faults() == old(
                self,
            ).faults(),
            L3::reads_always() ==> final(self).faults() == old(self).faults(),
            r is Err ==> final(self).faults() > old(self).faults(),
            old(self).wf() ==> final(self).wf() && final(self).tidy() == old(self).tidy()
                && final(self).world() == old(self).world(),
            r == Ok::<bool, SfsError>(true) ==> {
                &&& final(self).wf()
                &&& final(self).tidy()
                &&& final(self).intact()
                &&& final(self).open_views() == Map::<u64, OpenView>::empty()
                &&& final(self).world().handles == Map::<L3::Handle, OpenState>::empty()
                &&& final(self).faults() == old(self).faults()
                &&& holds_plain(final(self).world().streams, old(self).stored())
            },
            old(self).wf() && old(self).tidy() && old(self).intact() && old(self).world().handles
                == Map::<L3::Handle, OpenState>::empty() && final(self).faults() == old(
                self,
            ).faults() ==> r == Ok::<bool, SfsError>(true),
    {
        let ghost wd = self.world();
        let ghost stored = self.stored();
        let root: u64 = self.root_dir_stream_id;
        proof {
            if self.layer3.wf() {
                self.layer3.lemma_wf();
            }
            self.layer3.lemma_usable();
        }
        let (ids, issues) = collect_stream_ids(&mut self.layer3, root);
        proof {
            Self::lemma_still_intact(*old(self), *self);
            if old(self).intact() && self.faults() == old(self).faults() {
                let c = choose|c: Seq<u64>| #[trigger]
                    tree_names(stored, wd.width, wd.root, c) && old(self).store_intact(c);
                assert(old(self).layer3.intact(c));
                if issues@.len() == 0 {
                    lemma_names_unique(stored, wd.width, wd.root, c, ids@);
                }
            }
            if old(self).wf() && wd.handles == Map::<L3::Handle, OpenState>::empty() {
                assert forall|k: u64| !(#[trigger] self.open_streams@.contains_key(k)) by {
                    if self.open_streams@.contains_key(k) {
                        assert(wd.handles.contains_key(self.open_streams@[k].l3_handle));
                    }
                }
                assert(self.open_streams@ =~= Map::<u64, OpenStreamInfo<L3::Handle>>::empty());
            }
        }
        if issues.len() > 0 || self.open_streams.len() > 0 {
            return Ok(false);
        }
        let l4_slot: HeaderSlotId = self.layer3.header_slot_for_upper(0);
        let l4_data: Vec<u8> = match self.layer3.read_header_slot(l4_slot) {
            Ok(data) => data,
            Err(_) => {
                return Ok(false);
            },
        };
        match deserialize_header(l4_data.as_slice()) {
            Ok(id) => {
                if id != root {
                    return Ok(false);
                }
            },
            Err(_) => {
                return Ok(false);
            },
        }
        let r: Result<bool, SfsError> = self.layer3.examine(ids.as_slice());
        proof {
            assert(self.open_streams@ =~= Map::<u64, OpenStreamInfo<L3::Handle>>::empty());
            assert(self.open_views() =~= Map::<u64, OpenView>::empty());
            assert(self.stored() == stored);
            Self::lemma_still_intact(*old(self), *self);
            if r == Ok::<bool, SfsError>(true) {
                self.layer3.lemma_stored_streams();
                assert(old(self).layer3.intact(ids@));
                assert(self.store_intact(ids@));
                assert(tree_names(stored, wd.width, wd.root, ids@));
            }
        }
        r
    }

    /// A file system that no stream is open in for writing, and that takes no
    /// storage in vain, is intact if and only if its directories can be read and
    /// name every stream once, and no other.
    pub proof fn law_intact(&self)
        requires
            self.wf(),
            self.tidy(),
            self.only_readers(),
        ensures
            self.intact() <==> exists|ids: Seq<u64>| #[trigger]
                tree_names(self.world().streams, self.world().width, self.world().root, ids)
                    && ids.to_set() == self.world().streams.dom(),
    {
        let wd = self.world();
        self.layer3.lemma_stored_streams();
        assert forall|id: u64| #[trigger]
            entries_of(self.stored(), id, wd.width) == entries_of(wd.streams, id, wd.width) by {
            assert(self.layer3.stored().contains_key(id) <==> wd.streams.contains_key(id)
                && !wd.streams[id].compressed);
        }
        assert forall|ids: Seq<u64>| #[trigger]
            tree_names(self.stored(), wd.width, wd.root, ids) == tree_names(
                wd.streams,
                wd.width,
                wd.root,
                ids,
            ) by {
            lemma_names_same(self.stored(), wd.streams, wd.width, wd.root, ids);
        }
        assert forall|ids: Seq<u64>| #[trigger] tree_names(
            wd.streams,
            wd.width,
            wd.root,
            ids,
        ) implies (self.store_intact(ids) <==> ids.to_set() == wd.streams.dom()) by {
            self.layer3.lemma_intact(ids);
            if self.store_intact(ids) {
                assert forall|id: u64| ids.to_set().contains(id) <==> wd.streams.dom().contains(
                    id,
                ) by {
                    assert(ids.contains(id) <==> wd.streams.contains_key(id));
                }
                assert(ids.to_set() =~= wd.streams.dom());
            }
            if ids.to_set() == wd.streams.dom() {
                assert forall|id: u64| #[trigger] ids.contains(id) <==> wd.streams.contains_key(
                    id,
                ) by {
                    assert(ids.to_set().contains(id) <==> wd.streams.dom().contains(id));
                }
            }
        }
        if exists|ids: Seq<u64>| #[trigger]
            tree_names(wd.streams, wd.width, wd.root, ids) && ids.to_set() == wd.streams.dom() {
            let c = choose|ids: Seq<u64>| #[trigger]
                tree_names(wd.streams, wd.width, wd.root, ids) && ids.to_set()
                    == wd.streams.dom();
            assert(tree_names(self.stored(), wd.width, wd.root, c));
        }
    }

    /// A file system whose directories are a tree is intact, where no stream is
    /// open in it for writing and it takes no storage in vain: `verify` has
    /// nothing to report of it.
    pub proof fn law_tree_intact(&self)
        requires
            self.wf(),
            self.tidy(),
            self.only_readers(),
            sound(self.world(), self.open_set()),
        ensures
            self.intact(),
    {
        self.lemma_world();
        self.law_intact();
        law_tree_named(self.world(), self.open_set());
    }

    /// The number of bytes of a stream number in storage.
    pub fn block_index_width(&self) -> (width: u8)
        requires
            self.wf() || self.usable(),
        ensures
            width == self.world().width,
    {
        self.layer3.block_index_width()
    }

    /// The size of a block as a power of two.
    pub fn block_size_shift(&self) -> (shift: u8)
        requires
            self.wf() || self.usable(),
        ensures
            self.world().plain_unit == pow2(shift as nat),
    {
        self.layer3.block_size_shift()
    }

    /// Closes all open streams, also after one of them could not be stored, and
    /// gives the first error where one came: that of the call before which none had
    /// failed. No stream is open afterwards, here or in the layer below.
    fn flush_open_streams(&mut self) -> (r: Result<(), SfsError>)
        requires
            old(self).wf(),
        ensures
            final(self).faults() >= old(self).faults(),
            final(self).handles_left() == old(self).handles_left(),
            final(self).store_faults() >= old(self).store_faults(),
            (final(self).store_faults() == old(self).store_faults()) == (final(self).faults()
                == old(self).faults()),
            (r is Ok) == (final(self).faults() == old(self).faults()),
            old(self).only_readers() ==> r is Ok,
            final(self).open_views() == Map::<u64, OpenView>::empty(),
            handles_dropped(*old(self), final(self).world().handles),
            r matches Err(e) ==> exists|below: &mut L3, h: L3::Handle|
                {
                    &&& #[trigger] call_ensures(
                        L3::close_stream,
                        (below, h),
                        Err::<(), SfsError>(e),
                    )
                    &&& old(self).is_held(h)
                    &&& below.faults() == old(self).store_faults()
                },
            r is Ok ==> {
                &&& final(self).wf()
                &&& old(self).tidy() ==> final(self).tidy()
                &&& final(self).world() == (World {
                    handles: final(self).world().handles,
                    ..old(self).world()
                })
            },
    {
        let keys: Vec<u64> = keys_of(&self.open_streams);
        let mut failed: Option<SfsError> = None;
        let mut i: usize = 0;
        proof {
            assert forall|k: u64| !#[trigger] keys@.take(0).contains(k) by {}
        }
        while i < keys.len()
            invariant
                i <= keys@.len(),
                keys@.no_duplicates(),
                forall|k: u64| #[trigger]
                    keys@.contains(k) <==> old(self).open_streams@.contains_key(k),
                old(self).wf(),
                *self == (Sfs { layer3: self.layer3, ..*old(self) }),
                self.layer3.faults() >= old(self).layer3.faults(),
                (failed is None) == (self.layer3.faults() == old(self).layer3.faults()),
                old(self).only_readers() ==> failed is None,
                failed is Some ==> self.layer3.failed(),
                failed matches Some(e) ==> exists|below: &mut L3, h: L3::Handle|
                    {
                        &&& #[trigger] call_ensures(
                            L3::close_stream,
                            (below, h),
                            Err::<(), SfsError>(e),
                        )
                        &&& old(self).is_held(h)
                        &&& below.faults() == old(self).store_faults()
                    },
                failed is None ==> {
                    &&& self.layer3.wf()
                    &&& old(self).layer3.tidy() ==> self.layer3.tidy()
                    &&& kept(old(self).layer3, self.layer3)
                    &&& self.layer3.streams() == old(self).layer3.streams()
                },
                forall|h: L3::Handle| #[trigger]
                    self.layer3.handles().contains_key(h) <==> old(
                        self,
                    ).layer3.handles().contains_key(h) && !exists|k: u64| #[trigger]
                        keys@.take(i as int).contains(k) && old(self).open_streams@[k].l3_handle
                            == h,
                forall|h: L3::Handle| #[trigger]
                    self.layer3.handles().contains_key(h) ==> self.layer3.handles()[h] == old(
                        self,
                    ).layer3.handles()[h],
            decreases keys@.len() - i,
        {
            let k: u64 = keys[i];
            proof {
                assert(keys@.contains(k));
                assert(self.open_streams@.contains_key(k));
            }
            let ghost a = self.layer3;
            let ghost g = self.open_streams@[k].l3_handle;
            let l3_handle: L3::Handle = match self.open_streams.get(&k) {
                Some(info) => info.l3_handle,
                None => {
                    return Ok(());
                },
            };
            proof {
                if a.handles().contains_key(g) {
                } else {
                    let x = choose|x: u64| #[trigger]
                        keys@.take(i as int).contains(x) && old(self).open_streams@[x].l3_handle
                            == g;
                    let j = choose|j: int| 0 <= j < i && keys@.take(i as int)[j] == x;
                    assert(keys@[j] == x);
                    assert(keys@.contains(x));
                    assert(x != k);
                }
                lemma_taken_one_more(keys@, i as int);
            }
            match self.layer3.close_stream(l3_handle) {
                Ok(_) => {},
                Err(e) => {
                    if failed.is_none() {
                        failed = Some(e);
                    }
                },
            }
            proof {
                assert forall|h: L3::Handle| #[trigger]
                    self.layer3.handles().contains_key(h) <==> old(
                        self,
                    ).layer3.handles().contains_key(h) && !exists|x: u64| #[trigger]
                        keys@.take(i + 1).contains(x) && old(self).open_streams@[x].l3_handle
                            == h by {
                    assert(keys@.take(i + 1).contains(k));
                    if exists|x: u64| #[trigger]
                        keys@.take(i + 1).contains(x) && old(self).open_streams@[x].l3_handle
                            == h {
                        let x = choose|x: u64| #[trigger]
                            keys@.take(i + 1).contains(x) && old(self).open_streams@[x].l3_handle
                                == h;
                        if x != k {
                            assert(keys@.take(i as int).contains(x));
                        }
                    }
                    if exists|x: u64| #[trigger]
                        keys@.take(i as int).contains(x) && old(self).open_streams@[x].l3_handle
                            == h {
                        let x = choose|x: u64| #[trigger]
                            keys@.take(i as int).contains(x) && old(
                                self,
                            ).open_streams@[x].l3_handle == h;
                        assert(keys@.take(i + 1).contains(x));
                    }
                }
            }
            i = i + 1;
        }
        proof {
            assert(keys@.take(i as int) =~= keys@);
            assert forall|h: L3::Handle| #[trigger]
                self.layer3.handles().contains_key(h) <==> old(self).layer3.handles().contains_key(
                    h,
                ) && !old(self).is_held(h) by {
                if old(self).is_held(h) {
                    let k = choose|k: u64| #[trigger]
                        old(self).open_streams@.contains_key(k) && old(
                            self,
                        ).open_streams@[k].l3_handle == h;
                    assert(keys@.take(i as int).contains(k));
                }
                if exists|k: u64| #[trigger]
                    keys@.take(i as int).contains(k) && old(self).open_streams@[k].l3_handle == h {
                    let k = choose|k: u64| #[trigger]
                        keys@.take(i as int).contains(k) && old(self).open_streams@[k].l3_handle
                            == h;
                    assert(keys@.contains(k));
                    assert(old(self).open_streams@.contains_key(k));
                }
            }
            if failed is None {
                Self::lemma_header_kept(old(self).layer3, self.layer3);
            }
        }
        self.open_streams = HashMap::new();
        proof {
            assert(self.open_views() =~= Map::<u64, OpenView>::empty());
        }
        match failed {
            Some(e) => Err(e),
            None => Ok(()),
        }
    }

    /// The stream layer, and the answer, after the file system was closed.
    pub open spec fn closed_as(&self, layer3: L3, r: Result<(), SfsError>) -> bool {
        let first = layer3.first_slot() as int;
        &&& layer3.faults() >= self.store_faults()
        &&& (r is Ok) == (layer3.faults() == self.store_faults())
        &&& self.only_readers() ==> r is Ok
        &&& handles_dropped(*self, layer3.handles())
        &&& r is Ok ==> {
            &&& layer3.wf()
            &&& self.tidy() ==> layer3.tidy()
            &&& world_of(layer3, self.world().root, self.world().mode) == (World {
                handles: layer3.handles(),
                ..self.world()
            })
            &&& first < layer3.slots().len()
            &&& is_l4_header(layer3.slots()[first])
            &&& l4_root(layer3.slots()[first]) == self.world().root
        }
    }

    /// Closes all open streams and gives the stream layer back, with the first
    /// error where one came.
    pub fn into_layer(self) -> (r: (L3, Result<(), SfsError>))
        requires
            self.wf(),
        ensures
            self.closed_as(r.0, r.1),
            r.1 matches Err(e) ==> exists|below: &mut L3, h: L3::Handle|
                {
                    &&& #[trigger] call_ensures(
                        L3::close_stream,
                        (below, h),
                        Err::<(), SfsError>(e),
                    )
                    &&& self.is_held(h)
                    &&& below.faults() == self.store_faults()
                },
    {
        let mut sfs: Sfs<L3> = self;
        let r = sfs.flush_open_streams();
        (sfs.layer3, r)
    }

    /// Closes the file system, after all open streams.
    pub fn close(self) -> (r: Result<(), SfsError>)
        requires
            self.wf(),
        ensures
            exists|layer3: L3| self.closed_as(layer3, r),
            r matches Err(e) ==> exists|below: &mut L3, h: L3::Handle|
                {
                    &&& #[trigger] call_ensures(
                        L3::close_stream,
                        (below, h),
                        Err::<(), SfsError>(e),
                    )
                    &&& self.is_held(h)
                    &&& below.faults() == self.store_faults()
                },
    {
        let ghost a = self;
        let (layer3, r) = self.into_layer();
        proof {
            assert(a.closed_as(layer3, r));
        }
        r
    }
}

} // verus!
