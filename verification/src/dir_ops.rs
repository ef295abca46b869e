//! Directories as streams of the stream layer.

use crate::dir_entries::{
    entry_bytes, entry_views, find_entry, parse_entries, parsed, serialize_entries, serialize_entry,
    Entry, StreamEntry,
};
use crate::names::{views, with_slash};
use crate::sfs_model::{
    entries_set, entry_added, follows, kind_of, no_parent, read_dir, strays, unit_in, walk,
    with_streams, DirState, Outcome, World,
};
use crate::stream_layer::{OpenState, StreamLayer};
use crate::types::{OpenMode, SfsError};
use vstd::prelude::*;

verus! {

/// The state of the stream layer as the file system sees it.
pub open spec fn world_of<L3: StreamLayer>(layer3: L3, root: u64, mode: OpenMode) -> World<
    L3::Handle,
> {
    World {
        streams: layer3.streams(),
        handles: layer3.handles(),
        root,
        mode,
        width: layer3.iwidth(),
        plain_unit: layer3.unit(false),
        packed_unit: layer3.unit(true),
        compression: layer3.compression(),
    }
}

/// The measures of the layer and the header slots of the layers above are the
/// same.
pub open spec fn kept<L3: StreamLayer>(a: L3, b: L3) -> bool {
    &&& b.iwidth() == a.iwidth()
    &&& b.unit(false) == a.unit(false)
    &&& b.unit(true) == a.unit(true)
    &&& b.first_slot() == a.first_slot()
    &&& b.compression() == a.compression()
    &&& b.slots().len() == a.slots().len()
    &&& b.slots().skip(a.first_slot() as int) == a.slots().skip(a.first_slot() as int)
    &&& a.tidy() ==> b.tidy()
}

/// Reads the entries of a directory through an open handle.
pub(crate) fn read_entries_from_handle<L3: StreamLayer>(layer3: &mut L3, handle: &L3::Handle) -> (r:
    Result<Vec<StreamEntry>, SfsError>)
    requires
        old(layer3).wf(),
        old(layer3).handles().contains_key(*handle),
    ensures
        final(layer3).wf(),
        kept(*old(layer3), *final(layer3)),
        final(layer3).streams() == old(layer3).streams(),
        final(layer3).handles() == old(layer3).handles(),
        final(layer3).faults() >= old(layer3).faults(),
        r is Ok ==> final(layer3).faults() == old(layer3).faults(),
        final(layer3).faults() == old(layer3).faults() ==> {
            let data = old(layer3).streams()[old(layer3).handles()[*handle].stream].data;
            let es = parsed(data, old(layer3).iwidth());
            match r {
                Ok(entries) => {
                    &&& data.len() <= usize::MAX
                    &&& es is Some
                    &&& entry_views(entries@) == es.unwrap()
                },
                Err(e) => (data.len() > usize::MAX || es is None) && e is IoError,
            }
        },
{
    let ghost data = layer3.streams()[layer3.handles()[*handle].stream].data;
    proof {
        layer3.lemma_wf();
    }
    let len: u64 = match layer3.stream_length(handle) {
        Ok(len) => len,
        Err(e) => {
            return Err(e);
        },
    };
    if len == 0 {
        proof {
            assert(data =~= Seq::<u8>::empty());
            assert(entry_views(Seq::<StreamEntry>::empty()) =~= Seq::<Entry>::empty());
        }
        return Ok(Vec::new());
    }
    if len > usize::MAX as u64 {
        return Err(SfsError::IoError("directory stream is too long".to_owned()));
    }
    let mut buf: Vec<u8> = vec![0u8; len as usize];
    match layer3.read(handle, 0, buf.as_mut_slice()) {
        Ok(_) => {},
        Err(e) => {
            return Err(e);
        },
    }
    proof {
        assert(buf@ =~= data);
    }
    let width: u8 = layer3.block_index_width();
    parse_entries(buf.as_slice(), width)
}

/// Opens a directory and reads its entries. Where these are damaged, the
/// directory is closed again.
pub(crate) fn open_dir<L3: StreamLayer>(
    layer3: &mut L3,
    id: u64,
    mode: OpenMode,
    Ghost(root): Ghost<u64>,
    Ghost(file_mode): Ghost<OpenMode>,
) -> (r: Result<(L3::Handle, Vec<StreamEntry>), SfsError>)
    requires
        old(layer3).wf(),
    ensures
        final(layer3).faults() >= old(layer3).faults(),
        r is Ok ==> final(layer3).faults() == old(layer3).faults(),
        final(layer3).faults() == old(layer3).faults() ==> {
            let w0 = world_of(*old(layer3), root, file_mode);
            let w1 = world_of(*final(layer3), root, file_mode);
            &&& final(layer3).wf()
            &&& kept(*old(layer3), *final(layer3))
            &&& match read_dir(w0, id, mode) {
                DirState::Refused(kind) => r is Err && kind_of(r->Err_0) == kind && w1 == w0,
                DirState::Entries(es) => {
                    &&& r matches Ok(found)
                    &&& entry_views(found.1@) == es
                    &&& !w0.handles.contains_key(found.0)
                    &&& w1.handles == w0.handles.insert(found.0, OpenState { stream: id, mode })
                    &&& w1 == (World { handles: w1.handles, ..w0 })
                    &&& w0.streams.contains_key(id)
                    &&& w0.streams[id].data.len() <= usize::MAX
                    &&& parsed(w0.streams[id].data, w0.width) == Some(es)
                },
            }
        },
{
    let ghost w0 = world_of(*layer3, root, file_mode);
    proof {
        layer3.lemma_wf();
        // No stream has the largest number.
        if w0.streams.contains_key(u64::MAX) {
            crate::bytes::lemma_pow256_values();
            crate::bytes::lemma_pow256_monotone(layer3.iwidth(), 8);
        }
    }
    let handle: L3::Handle = match layer3.open_stream_blocking(id, mode) {
        Ok(handle) => handle,
        Err(e) => {
            return Err(e);
        },
    };
    match read_entries_from_handle(layer3, &handle) {
        Ok(entries) => Ok((handle, entries)),
        Err(e) => {
            let _ = layer3.close_stream(handle);
            proof {
                if layer3.faults() == old(layer3).faults() {
                    assert(layer3.handles() =~= w0.handles);
                    assert(world_of(*layer3, root, file_mode) =~= w0);
                }
            }
            Err(e)
        },
    }
}

/// Finds the directory that is reached from the root by `names`.
pub(crate) fn resolve_dir_stream_id<L3: StreamLayer>(
    layer3: &mut L3,
    root: u64,
    names: &Vec<Vec<u8>>,
    Ghost(mode): Ghost<OpenMode>,
) -> (r: Result<u64, SfsError>)
    requires
        old(layer3).wf(),
    ensures
        final(layer3).faults() >= old(layer3).faults(),
        r is Ok ==> final(layer3).faults() == old(layer3).faults(),
        final(layer3).faults() == old(layer3).faults() ==> {
            let w0 = world_of(*old(layer3), root, mode);
            let w1 = world_of(*final(layer3), root, mode);
            let out = walk(w0, root, views(names@));
            &&& final(layer3).wf()
            &&& kept(*old(layer3), *final(layer3))
            &&& follows(out, w0, w1, r)
            &&& out matches Outcome::Done(id) ==> r == Ok::<u64, SfsError>(id) && w1 == w0
            &&& !(out is TooLarge)
            &&& strays(w0, root, views(names@)) ==> (r matches Err(SfsError::NotFound(said))
                && said@ == no_parent())
        },
{
    let ghost w0 = world_of(*layer3, root, mode);
    let ghost all = views(names@);
    let mut current_id: u64 = root;
    let mut i: usize = 0;
    proof {
        assert(all.skip(0) =~= all);
    }
    while i < names.len()
        invariant
            layer3.wf(),
            kept(*old(layer3), *layer3),
            layer3.faults() == old(layer3).faults(),
            w0 == world_of(*old(layer3), root, mode),
            world_of(*layer3, root, mode) == w0,
            all == views(names@),
            i <= names@.len(),
            walk(w0, root, all) == walk(w0, current_id, all.skip(i as int)),
            strays(w0, root, all) == strays(w0, current_id, all.skip(i as int)),
        decreases names@.len() - i,
    {
        let ghost rest = all.skip(i as int);
        proof {
            assert(rest[0] == names@[i as int]@);
            assert(rest.skip(1) =~= all.skip(i + 1));
        }
        let name: Vec<u8> = with_slash(names[i].as_slice());
        let (handle, entries) = match open_dir(
            layer3,
            current_id,
            OpenMode::Read,
            Ghost(root),
            Ghost(mode),
        ) {
            Ok(found) => found,
            Err(e) => {
                return Err(e);
            },
        };
        match layer3.close_stream(handle) {
            Ok(_) => {},
            Err(e) => {
                return Err(e);
            },
        }
        proof {
            assert(layer3.handles() =~= w0.handles);
            assert(world_of(*layer3, root, mode) =~= w0);
        }
        match find_entry(&entries, name.as_slice()) {
            Some(id) => {
                current_id = id;
            },
            None => {
                return Err(SfsError::NotFound("parent directory does not exist".to_owned()));
            },
        }
        i = i + 1;
    }
    proof {
        assert(all.skip(i as int) =~= Seq::<Seq<u8>>::empty());
    }
    Ok(current_id)
}

/// Writes an entry behind those of an open directory.
pub(crate) fn append_entry<L3: StreamLayer>(
    layer3: &mut L3,
    handle: &L3::Handle,
    id: u64,
    name: &[u8],
    Ghost(dir): Ghost<u64>,
    Ghost(root): Ghost<u64>,
    Ghost(mode): Ghost<OpenMode>,
) -> (r: Result<(), SfsError>)
    requires
        old(layer3).wf(),
        old(layer3).handles().contains_key(*handle),
        old(layer3).handles()[*handle] == (OpenState { stream: dir, mode: OpenMode::Write }),
    ensures
        final(layer3).faults() >= old(layer3).faults(),
        r is Ok ==> final(layer3).faults() == old(layer3).faults(),
        final(layer3).faults() == old(layer3).faults() ==> {
            let w0 = world_of(*old(layer3), root, mode);
            let w1 = world_of(*final(layer3), root, mode);
            &&& final(layer3).wf()
            &&& kept(*old(layer3), *final(layer3))
            &&& match entry_added(w0, dir, Entry { id, name: name@ }) {
                Outcome::Done(streams) => r is Ok && w1 == with_streams(w0, streams),
                _ => r is Err && r->Err_0 is IoError,
            }
        },
{
    let ghost w0 = world_of(*layer3, root, mode);
    let ghost s0 = layer3.streams()[dir];
    let ghost e = Entry { id, name: name@ };
    proof {
        layer3.lemma_wf();
        assert(layer3.streams().contains_key(layer3.handles()[*handle].stream));
    }
    let width: u8 = layer3.block_index_width();
    let mut buf: Vec<u8> = Vec::new();
    serialize_entry(&mut buf, id, name, width);
    proof {
        assert(buf@ =~= entry_bytes(e, width as nat));
        crate::bytes::lemma_le_bytes_len(((2 + width + name@.len()) % 65536) as nat, 2);
        assert(buf@.len() >= 2);
    }
    let len: u64 = match layer3.stream_length(handle) {
        Ok(len) => len,
        Err(e) => {
            return Err(e);
        },
    };
    if buf.len() as u64 > u64::MAX - len {
        return Err(SfsError::IoError("directory stream is too long".to_owned()));
    }
    match layer3.write(handle, len, buf.as_slice()) {
        Ok(_) => {
            proof {
                let s1 = layer3.streams()[dir];
                assert(s1.data =~= s0.data + buf@);
                let unit = unit_in(w0, s0.compressed);
                assert(s1 =~= crate::sfs_model::appended(s0, buf@, unit));
            }
            Ok(())
        },
        Err(e) => Err(e),
    }
}

/// Writes the entries of an open directory anew.
pub(crate) fn rewrite_entries<L3: StreamLayer>(
    layer3: &mut L3,
    handle: &L3::Handle,
    entries: &Vec<StreamEntry>,
    Ghost(dir): Ghost<u64>,
    Ghost(root): Ghost<u64>,
    Ghost(mode): Ghost<OpenMode>,
) -> (r: Result<(), SfsError>)
    requires
        old(layer3).wf(),
        old(layer3).handles().contains_key(*handle),
        old(layer3).handles()[*handle] == (OpenState { stream: dir, mode: OpenMode::Write }),
        old(layer3).streams()[dir].data.len() > 0,
    ensures
        final(layer3).faults() >= old(layer3).faults(),
        r is Ok ==> final(layer3).faults() == old(layer3).faults(),
        final(layer3).faults() == old(layer3).faults() ==> {
            let w0 = world_of(*old(layer3), root, mode);
            let w1 = world_of(*final(layer3), root, mode);
            &&& final(layer3).wf()
            &&& kept(*old(layer3), *final(layer3))
            &&& match entries_set(w0, dir, entry_views(entries@)) {
                Outcome::Done(streams) => r is Ok && w1 == with_streams(w0, streams),
                _ => r is Err && r->Err_0 is IoError,
            }
        },
{
    let ghost w0 = world_of(*layer3, root, mode);
    let ghost s0 = layer3.streams()[dir];
    let ghost unit = unit_in(w0, s0.compressed);
    proof {
        layer3.lemma_wf();
        assert(layer3.streams().contains_key(layer3.handles()[*handle].stream));
    }
    let width: u8 = layer3.block_index_width();
    let buf: Vec<u8> = serialize_entries(entries, width);
    match layer3.truncate(handle, 0) {
        Ok(_) => {},
        Err(e) => {
            return Err(e);
        },
    }
    let ghost sc = layer3.streams()[dir];
    proof {
        assert(sc.data =~= Seq::<u8>::empty());
        assert(0 * unit == 0) by (nonlinear_arith);
        assert(sc.reserved == 0);
    }
    if buf.len() > 0 {
        match layer3.write(handle, 0, buf.as_slice()) {
            Ok(_) => {},
            Err(e) => {
                return Err(e);
            },
        }
    }
    proof {
        let s1 = layer3.streams()[dir];
        assert(s1.data =~= buf@);
        assert(s1 =~= crate::sfs_model::rewritten(s0, buf@, unit));
        assert(layer3.streams() =~= w0.streams.insert(dir, s1));
    }
    Ok(())
}

} // verus!
